//! Rendering of grouped server declarations into web-server configuration
//! text: escaping of literal values, one text block per host.

use vstd::prelude::*;
use vstd::string::StringExecFns;
use vstd::utf8::encode_utf8;
use crate::config::{
    Config, ConfigBackend, ConfigError, ConfigHttpHttps, ConfigServer, ConfigServerTemplate,
    find_template, has_template,
};
use crate::registry::{dec_str, u16_to_string, u64_to_string};

verus! {

/// Relies on `alloc::string::String::push`: appends the given character to
/// the end of the string.
#[verifier::external_body]
fn push_char(s: &mut String, c: char)
    ensures
        final(s)@ == old(s)@.push(c),
{
    s.push(c)
}

/// The lower-case hexadecimal digit character for `n` < 16.
pub open spec fn hex_digit(n: nat) -> char {
    if n < 10 {
        crate::registry::dec_digit(n)
    } else if n == 10 {
        'a'
    } else if n == 11 {
        'b'
    } else if n == 12 {
        'c'
    } else if n == 13 {
        'd'
    } else if n == 14 {
        'e'
    } else {
        'f'
    }
}

/// How one byte is escaped: the named escapes, printable ASCII verbatim,
/// everything else as a hexadecimal escape.
pub open spec fn escape_byte(b: u8) -> Seq<char> {
    if b == 9 {
        "\\t"@
    } else if b == 13 {
        "\\r"@
    } else if b == 10 {
        "\\n"@
    } else if b == 92 {
        "\\\\"@
    } else if b == 39 {
        "\\'"@
    } else if b == 34 {
        "\\\""@
    } else if 32 <= b && b <= 126 {
        seq![b as char]
    } else {
        "\\x"@ + seq![hex_digit((b / 16) as nat), hex_digit((b % 16) as nat)]
    }
}

/// The concatenated escapes of a byte sequence.
pub open spec fn escaped_bytes(bs: Seq<u8>) -> Seq<char>
    decreases bs.len(),
{
    if bs.len() == 0 {
        Seq::empty()
    } else {
        escaped_bytes(bs.drop_last()) + escape_byte(bs.last())
    }
}

/// Whether the escaped text must be wrapped in quotes: some byte escapes to
/// more than one character, or is a space or a semicolon.
pub open spec fn needs_quotes(bs: Seq<u8>) -> bool {
    exists|k: int| 0 <= k < bs.len() && (escape_byte(#[trigger] bs[k]).len() != 1 || bs[k] == 32
        || bs[k] == 59)
}

/// The escaped form of a byte sequence, quoted when required.
pub open spec fn escape_str(bs: Seq<u8>) -> Seq<char> {
    if needs_quotes(bs) {
        "\""@ + escaped_bytes(bs) + "\""@
    } else {
        escaped_bytes(bs)
    }
}

/// One lower-case hexadecimal digit as a character.
fn hex_char(d: u8) -> (r: char)
    requires
        d < 16,
    ensures
        r == hex_digit(d as nat),
{
    if d == 0 {
        '0'
    } else if d == 1 {
        '1'
    } else if d == 2 {
        '2'
    } else if d == 3 {
        '3'
    } else if d == 4 {
        '4'
    } else if d == 5 {
        '5'
    } else if d == 6 {
        '6'
    } else if d == 7 {
        '7'
    } else if d == 8 {
        '8'
    } else if d == 9 {
        '9'
    } else if d == 10 {
        'a'
    } else if d == 11 {
        'b'
    } else if d == 12 {
        'c'
    } else if d == 13 {
        'd'
    } else if d == 14 {
        'e'
    } else {
        'f'
    }
}

/// Escapes a value for use in a configuration directive, wrapping it in
/// quotes when it holds a space, a semicolon, or a non-verbatim byte.
pub fn escape_nginx_string(s: &str) -> (r: String)
    ensures
        r@ == escape_str(encode_utf8(s@)),
{
    let b = s.as_bytes();
    let ghost bs = encode_utf8(s@);
    let mut retval = String::new();
    let mut use_quotes = false;
    let mut j: usize = 0;
    while j < b.len()
        invariant
            j <= b.len(),
            b@ == bs,
            retval@ == escaped_bytes(bs.take(j as int)),
            use_quotes == needs_quotes(bs.take(j as int)),
        decreases b.len() - j,
    {
        let ghost pre = bs.take(j as int);
        let c = b[j];
        if c == 9 {
            retval.append("\\t");
            use_quotes = true;
        } else if c == 13 {
            retval.append("\\r");
            use_quotes = true;
        } else if c == 10 {
            retval.append("\\n");
            use_quotes = true;
        } else if c == 92 {
            retval.append("\\\\");
            use_quotes = true;
        } else if c == 39 {
            retval.append("\\'");
            use_quotes = true;
        } else if c == 34 {
            retval.append("\\\"");
            use_quotes = true;
        } else if 32 <= c && c <= 126 {
            push_char(&mut retval, c as char);
            if c == 32 || c == 59 {
                use_quotes = true;
            }
        } else {
            retval.append("\\x");
            let h = hex_char(c / 16);
            let l = hex_char(c % 16);
            push_char(&mut retval, h);
            push_char(&mut retval, l);
            use_quotes = true;
        }
        proof {
            reveal_strlit("\\t");
            reveal_strlit("\\r");
            reveal_strlit("\\n");
            reveal_strlit("\\\\");
            reveal_strlit("\\'");
            reveal_strlit("\\\"");
            reveal_strlit("\\x");
            let t = bs.take(j as int + 1);
            assert(t.drop_last() =~= pre);
            assert(t.last() == c);
            assert(retval@ =~= escaped_bytes(pre) + escape_byte(c));
            if escape_byte(c).len() != 1 || c == 32 || c == 59 {
                assert(needs_quotes(t)) by {
                    assert(t[j as int] == c);
                }
            } else {
                if needs_quotes(pre) {
                    let k = choose|k: int| 0 <= k < pre.len() && (escape_byte(
                        #[trigger] pre[k],
                    ).len() != 1 || pre[k] == 32 || pre[k] == 59);
                    assert(t[k] == pre[k]);
                    assert(needs_quotes(t));
                }
                if needs_quotes(t) {
                    let k = choose|k: int| 0 <= k < t.len() && (escape_byte(#[trigger] t[k]).len()
                        != 1 || t[k] == 32 || t[k] == 59);
                    if k < j {
                        assert(pre[k] == t[k]);
                        assert(needs_quotes(pre));
                    } else {
                        assert(t[k] == c);
                    }
                }
            }
        }
        j = j + 1;
    }
    proof {
        assert(bs.take(bs.len() as int) =~= bs);
    }
    if use_quotes {
        let mut quoted: String = "\"".to_owned();
        quoted.append(retval.as_str());
        quoted.append("\"");
        proof {
            assert(quoted@ =~= escape_str(bs));
        }
        quoted
    } else {
        retval
    }
}

/// The escaped form of a configuration value.
pub open spec fn esc(t: Seq<char>) -> Seq<char> {
    escape_str(encode_utf8(t))
}

/// The directive a backend renders to inside its location.
pub open spec fn backend_directive(b: ConfigBackend) -> Seq<char> {
    match b {
        ConfigBackend::Proxy { target } => "    proxy_pass "@ + esc(target@) + ";\n"@,
        ConfigBackend::Rewrite { target, code } => "    rewrite "@ + esc(target@) + " "@ + dec_str(
            code as nat,
        ) + ";\n"@,
        ConfigBackend::File { path } => "    root "@ + esc(path@) + ";\n"@,
    }
}

/// The comment naming a declaration inside its block.
pub open spec fn block_name(s: ConfigServer) -> Seq<char> {
    match s.name {
        Some(n) => n@,
        None => "<anonymous>"@,
    }
}

/// The text one declaration contributes to its host's block.
pub open spec fn server_entry(s: ConfigServer) -> Seq<char> {
    "  # generated block for config "@ + block_name(s) + "\n"@ + match s.location {
        Some(loc) => "  location "@ + esc(loc@) + " {\n"@ + backend_directive(s.backend)
            + "  }\n"@,
        None => "  # default location\n  #{\n"@ + backend_directive(s.backend) + "  #}\n"@,
    }
}

/// The concatenated contributions of a declaration list.
pub open spec fn server_entries(v: Seq<ConfigServer>) -> Seq<char>
    decreases v.len(),
{
    if v.len() == 0 {
        Seq::empty()
    } else {
        server_entries(v.drop_last()) + server_entry(v.last())
    }
}

/// A collection of declarations for one host, rendered against one template.
pub struct WebTemplate {
    pub host: String,
    pub servers: Vec<ConfigServer>,
    pub template: ConfigServerTemplate,
}

/// Something that renders itself to configuration text.
pub trait TemplateWriter {
    fn to_config_string(&self) -> String;
}

/// The `server_name` line of a block.
pub open spec fn ident_str(host: Seq<char>) -> Seq<char> {
    "  server_name "@ + host + ";\n"@
}

/// The backend summary and per-declaration bodies of a block.
pub open spec fn server_str(w: WebTemplate) -> Seq<char> {
    "  # found "@ + dec_str(w.servers@.len()) + " backend(s) for host "@ + w.host@ + "\n"@
        + server_entries(w.servers@)
}

/// A plain listen line.
pub open spec fn listen_http(port: u16) -> Seq<char> {
    "  listen "@ + dec_str(port as nat) + ";\n"@
}

/// A TLS listen line.
pub open spec fn listen_https(port: u16) -> Seq<char> {
    "  listen "@ + dec_str(port as nat) + " ssl http2;\n"@
}

/// The Strict-Transport-Security header line.
pub open spec fn hsts_str(duration: u64, include_sub_domains: bool, preload: bool) -> Seq<char> {
    "  add_header Strict-Transport-Security \"max-age="@ + dec_str(duration as nat) + (
    if include_sub_domains {
        "; includeSubDomains"@
    } else {
        Seq::empty()
    }) + (if preload {
        "; preload"@
    } else {
        Seq::empty()
    }) + "\"\n"@
}

/// The redirect-everything-to-HTTPS block.
pub open spec fn redirect_block(port: u16, host: Seq<char>) -> Seq<char> {
    "server {\n"@ + listen_http(port) + ident_str(host)
        + "  rewrite . https://$host$request_uri permanent;\n"@ + "}\n"@
}

/// The whole output of one template block, by its HTTPS mode.
pub open spec fn template_output(w: WebTemplate) -> Seq<char> {
    match w.template {
        ConfigServerTemplate::Http { https, port } => match https {
            ConfigHttpHttps::Enforcing => "server {\n"@ + listen_https(port.https) + ident_str(
                w.host@,
            ) + server_str(w) + "}\n"@ + redirect_block(port.http, w.host@),
            ConfigHttpHttps::HSTS { duration, include_sub_domains, preload } => "server {\n"@
                + listen_https(port.https) + ident_str(w.host@) + hsts_str(
                duration,
                include_sub_domains,
                preload,
            ) + server_str(w) + "}\n"@ + redirect_block(port.http, w.host@),
            ConfigHttpHttps::Compatible => "server {\n"@ + listen_http(port.http) + listen_https(
                port.https,
            ) + ident_str(w.host@) + server_str(w) + "}\n"@,
            ConfigHttpHttps::Disabled => "server {\n"@ + listen_http(port.http) + ident_str(w.host@)
                + server_str(w) + "}\n"@,
            ConfigHttpHttps::Only => "server {\n"@ + listen_https(port.https) + ident_str(w.host@)
                + server_str(w) + "}\n"@,
        },
    }
}

impl WebTemplate {
    /// Renders this host's whole configuration block.
    #[verifier::rlimit(100)]
    #[verifier::spinoff_prover]
    pub fn to_config_string(&self) -> (r: String)
        ensures
            r@ == template_output(*self),
    {
        let mut ident: String = "  server_name ".to_owned();
        ident.append(self.host.as_str());
        ident.append(";\n");
        proof {
            assert(ident@ =~= ident_str(self.host@));
        }

        let mut sstr: String = "  # found ".to_owned();
        let count = u64_to_string(self.servers.len() as u64);
        sstr.append(count.as_str());
        sstr.append(" backend(s) for host ");
        sstr.append(self.host.as_str());
        sstr.append("\n");
        let ghost header = sstr@;
        proof {
            assert(header =~= "  # found "@ + dec_str(self.servers@.len()) + " backend(s) for host "@
                + self.host@ + "\n"@);
        }

        let mut k: usize = 0;
        while k < self.servers.len()
            invariant
                k <= self.servers.len(),
                sstr@ == header + server_entries(self.servers@.take(k as int)),
            decreases self.servers.len() - k,
        {
            let server = &self.servers[k];
            sstr.append("  # generated block for config ");
            match &server.name {
                Some(n) => sstr.append(n.as_str()),
                None => sstr.append("<anonymous>"),
            }
            sstr.append("\n");

            let backend_str = match &server.backend {
                ConfigBackend::Proxy { target } => {
                    let mut bs: String = "    proxy_pass ".to_owned();
                    let e = escape_nginx_string(target.as_str());
                    bs.append(e.as_str());
                    bs.append(";\n");
                    proof {
                        assert(bs@ =~= backend_directive(server.backend));
                    }
                    bs
                },
                ConfigBackend::Rewrite { target, code } => {
                    let mut bs: String = "    rewrite ".to_owned();
                    let e = escape_nginx_string(target.as_str());
                    bs.append(e.as_str());
                    bs.append(" ");
                    let cs = u16_to_string(*code);
                    bs.append(cs.as_str());
                    bs.append(";\n");
                    proof {
                        assert(bs@ =~= backend_directive(server.backend));
                    }
                    bs
                },
                ConfigBackend::File { path } => {
                    let mut bs: String = "    root ".to_owned();
                    let e = escape_nginx_string(path.as_str());
                    bs.append(e.as_str());
                    bs.append(";\n");
                    proof {
                        assert(bs@ =~= backend_directive(server.backend));
                    }
                    bs
                },
            };

            match &server.location {
                Some(location) => {
                    sstr.append("  location ");
                    let e = escape_nginx_string(location.as_str());
                    sstr.append(e.as_str());
                    sstr.append(" {\n");
                    sstr.append(backend_str.as_str());
                    sstr.append("  }\n");
                },
                None => {
                    sstr.append("  # default location\n  #{\n");
                    sstr.append(backend_str.as_str());
                    sstr.append("  #}\n");
                },
            }
            proof {
                let t = self.servers@.take(k as int + 1);
                assert(t.drop_last() =~= self.servers@.take(k as int));
                assert(t.last() == self.servers@[k as int]);
                assert(sstr@ =~= header + server_entries(t));
            }
            k = k + 1;
        }
        proof {
            assert(self.servers@.take(self.servers@.len() as int) =~= self.servers@);
            assert(sstr@ =~= server_str(*self));
        }

        let mut retv = String::new();
        match &self.template {
            ConfigServerTemplate::Http { https, port } => {
                match https {
                    ConfigHttpHttps::Enforcing => {
                        retv.append("server {\n");
                        retv.append("  listen ");
                        let p = u16_to_string(port.https);
                        retv.append(p.as_str());
                        retv.append(" ssl http2;\n");
                        proof {
                            assert(retv@ =~= "server {\n"@ + listen_https(port.https));
                        }
                        retv.append(ident.as_str());
                        retv.append(sstr.as_str());
                        retv.append("}\n");
                        proof {
                            assert(retv@ =~= "server {\n"@ + listen_https(port.https) + ident_str(
                                self.host@,
                            ) + server_str(*self) + "}\n"@);
                        }
                        retv.append("server {\n");
                        retv.append("  listen ");
                        let p2 = u16_to_string(port.http);
                        retv.append(p2.as_str());
                        retv.append(";\n");
                        retv.append(ident.as_str());
                        retv.append("  rewrite . https://$host$request_uri permanent;\n");
                        retv.append("}\n");
                        proof {
                            assert(retv@ =~= "server {\n"@ + listen_https(port.https) + ident_str(
                                self.host@,
                            ) + server_str(*self) + "}\n"@ + redirect_block(port.http, self.host@));
                            assert(retv@ =~= template_output(*self));
                        }
                    },
                    ConfigHttpHttps::HSTS { duration, include_sub_domains, preload } => {
                        retv.append("server {\n");
                        retv.append("  listen ");
                        let p = u16_to_string(port.https);
                        retv.append(p.as_str());
                        retv.append(" ssl http2;\n");
                        retv.append(ident.as_str());
                        proof {
                            assert(retv@ =~= "server {\n"@ + listen_https(port.https) + ident_str(
                                self.host@,
                            ));
                        }
                        retv.append("  add_header Strict-Transport-Security \"max-age=");
                        let d = u64_to_string(*duration);
                        retv.append(d.as_str());
                        if *include_sub_domains {
                            retv.append("; includeSubDomains");
                        }
                        if *preload {
                            retv.append("; preload");
                        }
                        retv.append("\"\n");
                        proof {
                            assert(retv@ =~= "server {\n"@ + listen_https(port.https) + ident_str(
                                self.host@,
                            ) + hsts_str(*duration, *include_sub_domains, *preload));
                        }
                        retv.append(sstr.as_str());
                        retv.append("}\n");
                        proof {
                            assert(retv@ =~= "server {\n"@ + listen_https(port.https) + ident_str(
                                self.host@,
                            ) + hsts_str(*duration, *include_sub_domains, *preload) + server_str(
                                *self,
                            ) + "}\n"@);
                        }
                        retv.append("server {\n");
                        retv.append("  listen ");
                        let p2 = u16_to_string(port.http);
                        retv.append(p2.as_str());
                        retv.append(";\n");
                        retv.append(ident.as_str());
                        retv.append("  rewrite . https://$host$request_uri permanent;\n");
                        retv.append("}\n");
                        proof {
                            assert(retv@ =~= "server {\n"@ + listen_https(port.https) + ident_str(
                                self.host@,
                            ) + hsts_str(*duration, *include_sub_domains, *preload) + server_str(
                                *self,
                            ) + "}\n"@ + redirect_block(port.http, self.host@));
                            assert(retv@ =~= template_output(*self));
                        }
                    },
                    ConfigHttpHttps::Compatible => {
                        retv.append("server {\n");
                        retv.append("  listen ");
                        let p2 = u16_to_string(port.http);
                        retv.append(p2.as_str());
                        retv.append(";\n");
                        retv.append("  listen ");
                        let p = u16_to_string(port.https);
                        retv.append(p.as_str());
                        retv.append(" ssl http2;\n");
                        proof {
                            assert(retv@ =~= "server {\n"@ + listen_http(port.http) + listen_https(
                                port.https,
                            ));
                        }
                        retv.append(ident.as_str());
                        retv.append(sstr.as_str());
                        retv.append("}\n");
                        proof {
                            assert(retv@ =~= template_output(*self));
                        }
                    },
                    ConfigHttpHttps::Disabled => {
                        retv.append("server {\n");
                        retv.append("  listen ");
                        let p2 = u16_to_string(port.http);
                        retv.append(p2.as_str());
                        retv.append(";\n");
                        proof {
                            assert(retv@ =~= "server {\n"@ + listen_http(port.http));
                        }
                        retv.append(ident.as_str());
                        retv.append(sstr.as_str());
                        retv.append("}\n");
                        proof {
                            assert(retv@ =~= template_output(*self));
                        }
                    },
                    ConfigHttpHttps::Only => {
                        retv.append("server {\n");
                        retv.append("  listen ");
                        let p = u16_to_string(port.https);
                        retv.append(p.as_str());
                        retv.append(" ssl http2;\n");
                        proof {
                            assert(retv@ =~= "server {\n"@ + listen_https(port.https));
                        }
                        retv.append(ident.as_str());
                        retv.append(sstr.as_str());
                        retv.append("}\n");
                        proof {
                            assert(retv@ =~= template_output(*self));
                        }
                    },
                }
            },
        }
        retv
    }
}

impl TemplateWriter for WebTemplate {
    fn to_config_string(&self) -> String {
        WebTemplate::to_config_string(self)
    }
}

/// Does the host stand in one of the first `n` declarations?
pub open spec fn host_seen(servers: Seq<ConfigServer>, n: int, h: Seq<char>) -> bool {
    exists|k: int| 0 <= k < n && crate::registry::has_name((#[trigger] servers[k]).host@, h)
}

/// Do two declarations carry the same content? (Host lists are compared by
/// their views; every other field by value.)
pub open spec fn server_like(a: ConfigServer, b: ConfigServer) -> bool {
    &&& a.name == b.name
    &&& a.template == b.template
    &&& a.host@ == b.host@
    &&& a.location == b.location
    &&& a.backend == b.backend
}

/// The declarations that name host `h`, in declaration order.
pub open spec fn decls_naming(servers: Seq<ConfigServer>, h: Seq<char>) -> Seq<ConfigServer> {
    servers.filter(|s: ConfigServer| crate::registry::has_name(s.host@, h))
}

/// Do two declaration lists carry the same content, entry for entry?
pub open spec fn servers_match(a: Seq<ConfigServer>, b: Seq<ConfigServer>) -> bool {
    a.len() == b.len() && (forall|m: int| 0 <= m < a.len() ==> server_like(
        #[trigger] a[m],
        b[m],
    ))
}

proof fn lemma_decls_naming_none(servers: Seq<ConfigServer>, h: Seq<char>)
    requires
        forall|k: int| 0 <= k < servers.len() ==> !crate::registry::has_name(
            (#[trigger] servers[k]).host@,
            h,
        ),
    ensures
        decls_naming(servers, h).len() == 0,
    decreases servers.len(),
{
    reveal(Seq::filter);
    if servers.len() > 0 {
        lemma_decls_naming_none(servers.drop_last(), h);
        assert(!crate::registry::has_name(servers.last().host@, h));
    }
}

proof fn lemma_decls_naming_step(servers: Seq<ConfigServer>, n: int, h: Seq<char>)
    requires
        0 <= n < servers.len(),
    ensures
        decls_naming(servers.take(n + 1), h) == if crate::registry::has_name(
            servers[n].host@,
            h,
        ) {
            decls_naming(servers.take(n), h).push(servers[n])
        } else {
            decls_naming(servers.take(n), h)
        },
{
    reveal(Seq::filter);
    assert(servers.take(n + 1).drop_last() =~= servers.take(n));
    assert(servers.take(n + 1).last() == servers[n]);
}

/// The position of the group collecting host `h`, if one exists yet.
fn find_group(groups: &Vec<WebTemplate>, h: &String) -> (r: Option<usize>)
    ensures
        match r {
            Some(j) => j < groups.len() && groups@[j as int].host@ == h@,
            None => forall|k: int| 0 <= k < groups.len() ==> (#[trigger] groups@[k]).host@ != h@,
        },
{
    let mut j: usize = 0;
    while j < groups.len()
        invariant
            j <= groups.len(),
            forall|k: int| 0 <= k < j ==> (#[trigger] groups@[k]).host@ != h@,
        decreases groups.len() - j,
    {
        if groups[j].host == *h {
            return Some(j);
        }
        j = j + 1;
    }
    None
}

/// Does the name `x` already stand among the first `n` entries of `v`?
#[verifier::loop_isolation(false)]
fn seen_earlier(v: &Vec<String>, n: usize, x: &String) -> (r: bool)
    requires
        n <= v.len(),
    ensures
        r == exists|k: int| 0 <= k < n && (#[trigger] v@[k])@ == x@,
{
    let mut j: usize = 0;
    while j < n
        invariant
            j <= n,
            forall|k: int| 0 <= k < j ==> (#[trigger] v@[k])@ != x@,
        decreases n - j,
    {
        if v[j] == *x {
            return true;
        }
        j = j + 1;
    }
    false
}

/// Collects one [`WebTemplate`] per distinct host named by the declarations,
/// in order of first appearance, each gathering the declarations that name
/// its host, in declaration order and once each; fails on the first
/// declaration whose template is unknown.
#[verifier::loop_isolation(false)]
#[verifier::rlimit(100)]
#[verifier::spinoff_prover]
pub fn group_servers(cfg: &Config) -> (r: Result<Vec<WebTemplate>, ConfigError>)
    ensures
        r is Ok <==> (forall|k: int| 0 <= k < cfg.servers@.len() ==> has_template(
            cfg.templates@,
            (#[trigger] cfg.servers@[k]).template@,
        )),
        match r {
            Ok(groups) => {
                &&& forall|a: int, b: int| 0 <= a < b < groups@.len() ==> (#[trigger] groups@[a]).host@
                    != (#[trigger] groups@[b]).host@
                &&& forall|j: int| 0 <= j < groups@.len() ==> host_seen(
                    cfg.servers@,
                    cfg.servers@.len() as int,
                    (#[trigger] groups@[j]).host@,
                )
                &&& forall|h: Seq<char>| host_seen(cfg.servers@, cfg.servers@.len() as int, h)
                    ==> exists|j: int| 0 <= j < groups@.len() && (#[trigger] groups@[j]).host@ == h
                &&& forall|j: int| 0 <= j < groups@.len() ==> servers_match(
                    (#[trigger] groups@[j]).servers@,
                    decls_naming(cfg.servers@, groups@[j].host@),
                )
                &&& forall|j: int| 0 <= j < groups@.len() ==> exists|k: int, e: int|
                    #![trigger cfg.servers@[k], cfg.templates@[e]]
                    0 <= k < cfg.servers@.len() && 0 <= e < cfg.templates@.len()
                        && crate::registry::has_name(
                        cfg.servers@[k].host@,
                        (#[trigger] groups@[j]).host@,
                    ) && cfg.templates@[e].0@ == cfg.servers@[k].template@ && cfg.templates@[e].1
                        == groups@[j].template && (forall|k2: int|
                        0 <= k2 < k ==> !crate::registry::has_name(
                            (#[trigger] cfg.servers@[k2]).host@,
                            groups@[j].host@,
                        ))
            },
            Err(e) => e matches ConfigError::UnknownTemplate { template } && !has_template(
                cfg.templates@,
                template@,
            ) && exists|k: int|
                0 <= k < cfg.servers@.len() && (#[trigger] cfg.servers@[k]).template@ == template@
                    && (forall|k2: int| 0 <= k2 < k ==> has_template(
                    cfg.templates@,
                    (#[trigger] cfg.servers@[k2]).template@,
                )),
        },
{
    let mut groups: Vec<WebTemplate> = Vec::new();
    let mut i: usize = 0;
    while i < cfg.servers.len()
        invariant
            i <= cfg.servers.len(),
            forall|k: int| 0 <= k < i ==> has_template(
                cfg.templates@,
                (#[trigger] cfg.servers@[k]).template@,
            ),
            forall|a: int, b: int| 0 <= a < b < groups@.len() ==> (#[trigger] groups@[a]).host@ != (
            #[trigger] groups@[b]).host@,
            forall|j: int| 0 <= j < groups@.len() ==> host_seen(
                cfg.servers@,
                i as int,
                (#[trigger] groups@[j]).host@,
            ),
            forall|h: Seq<char>| host_seen(cfg.servers@, i as int, h) ==> exists|j: int|
                0 <= j < groups@.len() && (#[trigger] groups@[j]).host@ == h,
            forall|j: int| 0 <= j < groups@.len() ==> exists|k: int, e: int|
                #![trigger cfg.servers@[k], cfg.templates@[e]]
                0 <= k < cfg.servers@.len() && 0 <= e < cfg.templates@.len()
                    && crate::registry::has_name(
                    cfg.servers@[k].host@,
                    (#[trigger] groups@[j]).host@,
                ) && cfg.templates@[e].0@ == cfg.servers@[k].template@ && cfg.templates@[e].1
                    == groups@[j].template && (forall|k2: int|
                    0 <= k2 < k ==> !crate::registry::has_name(
                        (#[trigger] cfg.servers@[k2]).host@,
                        groups@[j].host@,
                    )),
            forall|j: int| 0 <= j < groups@.len() ==> servers_match(
                (#[trigger] groups@[j]).servers@,
                decls_naming(cfg.servers@.take(i as int), groups@[j].host@),
            ),
        decreases cfg.servers.len() - i,
    {
        let server = &cfg.servers[i];
        let tmpl = match find_template(&cfg.templates, &server.template) {
            Some(t) => *t,
            None => {
                return Err(ConfigError::UnknownTemplate { template: server.template.clone() });
            },
        };
        let mut hi: usize = 0;
        while hi < server.host.len()
            invariant
                hi <= server.host.len(),
                forall|a: int, b: int| 0 <= a < b < groups@.len() ==> (#[trigger] groups@[a]).host@
                    != (#[trigger] groups@[b]).host@,
                forall|j: int| 0 <= j < groups@.len() ==> host_seen(
                    cfg.servers@,
                    i as int,
                    (#[trigger] groups@[j]).host@,
                ) || crate::registry::has_name(server.host@, (#[trigger] groups@[j]).host@),
                forall|h: Seq<char>| host_seen(cfg.servers@, i as int, h) ==> exists|j: int|
                    0 <= j < groups@.len() && (#[trigger] groups@[j]).host@ == h,
                forall|hk: int| #![trigger server.host@[hk]] 0 <= hk < hi ==> exists|j: int|
                    0 <= j < groups@.len() && (#[trigger] groups@[j]).host@ == (server.host@[hk])@,
                forall|j: int| 0 <= j < groups@.len() ==> exists|k: int, e: int|
                    #![trigger cfg.servers@[k], cfg.templates@[e]]
                    0 <= k < cfg.servers@.len() && 0 <= e < cfg.templates@.len()
                        && crate::registry::has_name(
                        cfg.servers@[k].host@,
                        (#[trigger] groups@[j]).host@,
                    ) && cfg.templates@[e].0@ == cfg.servers@[k].template@ && cfg.templates@[e].1
                        == groups@[j].template && (forall|k2: int|
                        0 <= k2 < k ==> !crate::registry::has_name(
                            (#[trigger] cfg.servers@[k2]).host@,
                            groups@[j].host@,
                        )),
                exists|e: int| 0 <= e < cfg.templates@.len() && (#[trigger] cfg.templates@[e]).0@
                    == cfg.servers@[i as int].template@ && cfg.templates@[e].1 == tmpl,
                forall|j: int| 0 <= j < groups@.len() ==> servers_match(
                    (#[trigger] groups@[j]).servers@,
                    decls_naming(
                        cfg.servers@.take(
                            if exists|hk: int|
                                0 <= hk < hi && (#[trigger] server.host@[hk])@
                                    == groups@[j].host@ {
                                i as int + 1
                            } else {
                                i as int
                            },
                        ),
                        groups@[j].host@,
                    ),
                ),
            decreases server.host.len() - hi,
        {
            let h = &server.host[hi];
            if seen_earlier(&server.host, hi, h) {
                // a duplicate host name in one declaration: its group already
                // holds this declaration
                proof {
                    let k0 = choose|k0: int| 0 <= k0 < hi && (#[trigger] server.host@[k0])@ == h@;
                }
                hi = hi + 1;
                continue;
            }
            match find_group(&groups, h) {
                Some(gj) => {
                    let ghost groups_pre = groups@;
                    let entry = server.clone();
                    let ghost ent = entry;
                    let mut g = groups.remove(gj);
                    let ghost sv_pre = g.servers@;
                    g.servers.push(entry);
                    let ghost gg = g;
                    groups.insert(gj, g);
                    proof {
                        assert(gg.host@ == groups_pre[gj as int].host@);
                        assert(server_like(ent, cfg.servers@[i as int]));
                        assert(gg.servers@ == sv_pre.push(ent));
                        assert(sv_pre == groups_pre[gj as int].servers@);
                        assert forall|j: int| 0 <= j < groups@.len() implies (
                        #[trigger] groups@[j]).host@ == groups_pre[j].host@ && groups@[j].template
                            == groups_pre[j].template by {
                            if j < gj {
                                assert(groups@[j] == groups_pre[j]);
                            } else if j == gj {
                                assert(groups@[j] == gg);
                            } else {
                                assert(groups@[j] == groups_pre[j]);
                            }
                        }
                        assert forall|j: int| 0 <= j < groups@.len() && j != gj implies (
                        #[trigger] groups@[j]).servers@ == groups_pre[j].servers@ by {
                            if j < gj {
                                assert(groups@[j] == groups_pre[j]);
                            } else {
                                assert(groups@[j] == groups_pre[j]);
                            }
                        }
                        assert(groups@[gj as int].servers@ == sv_pre.push(ent));
                        assert(groups@[gj as int].host@ == h@);
                        assert(h@ == (server.host@[hi as int])@);
                        assert(crate::registry::has_name(
                            cfg.servers@[i as int].host@,
                            groups@[gj as int].host@,
                        ));
                        assert forall|h2: Seq<char>| host_seen(cfg.servers@, i as int, h2)
                            implies exists|j: int| 0 <= j < groups@.len() && (
                        #[trigger] groups@[j]).host@ == h2 by {
                            let j0 = choose|j0: int| 0 <= j0 < groups_pre.len()
                                && groups_pre[j0].host@ == h2;
                            assert(groups@[j0].host@ == h2);
                        }
                        assert forall|hk: int| #![trigger server.host@[hk]] 0 <= hk < hi + 1
                            implies exists|j: int| 0 <= j < groups@.len() && (
                        #[trigger] groups@[j]).host@ == (server.host@[hk])@ by {
                            if hk < hi {
                                let j0 = choose|j0: int| 0 <= j0 < groups_pre.len()
                                    && groups_pre[j0].host@ == (server.host@[hk])@;
                                assert(groups@[j0].host@ == (server.host@[hk])@);
                            } else {
                                assert(groups@[gj as int].host@ == h@);
                            }
                        }
                        lemma_decls_naming_step(cfg.servers@, i as int, h@);
                        assert(crate::registry::has_name(cfg.servers@[i as int].host@, h@));
                        let ghost hip = hi as int + 1;
                        assert forall|j: int| 0 <= j < groups@.len() implies servers_match(
                            (#[trigger] groups@[j]).servers@,
                            decls_naming(
                                cfg.servers@.take(
                                    if exists|hk: int|
                                        0 <= hk < hip && (#[trigger] server.host@[hk])@
                                            == groups@[j].host@ {
                                        i as int + 1
                                    } else {
                                        i as int
                                    },
                                ),
                                groups@[j].host@,
                            ),
                        ) by {
                            if j == gj {
                                assert((server.host@[hi as int])@ == groups@[j].host@);
                                assert(!(exists|hk: int|
                                    0 <= hk < hi && (#[trigger] server.host@[hk])@ == h@));
                                assert(servers_match(
                                    sv_pre,
                                    decls_naming(cfg.servers@.take(i as int), h@),
                                ));
                                assert(groups@[j].servers@ == sv_pre.push(ent));
                                assert(decls_naming(cfg.servers@.take(i as int + 1), h@)
                                    == decls_naming(cfg.servers@.take(i as int), h@).push(
                                    cfg.servers@[i as int],
                                ));
                                assert(server_like(ent, cfg.servers@[i as int]));
                            } else {
                                assert(groups@[j].host@ != h@);
                                assert(groups@[j].servers@ == groups_pre[j].servers@);
                                if exists|hk: int|
                                    0 <= hk < hip && (#[trigger] server.host@[hk])@
                                        == groups@[j].host@ {
                                    let hk0 = choose|hk0: int|
                                        0 <= hk0 < hip && (#[trigger] server.host@[hk0])@
                                            == groups@[j].host@;
                                    assert(hk0 < hi);
                                }
                            }
                        }
                    }
                },
                None => {
                    let ghost groups_pre = groups@;
                    let mut sv: Vec<ConfigServer> = Vec::new();
                    sv.push(server.clone());
                    let wt = WebTemplate { host: h.clone(), servers: sv, template: tmpl };
                    let ghost wtg = wt;
                    groups.push(wt);
                    proof {
                        assert(groups@ == groups_pre.push(wtg));
                        assert(wtg.host@ == (server.host@[hi as int])@);
                        assert forall|j: int| 0 <= j < groups@.len() implies host_seen(
                            cfg.servers@,
                            i as int,
                            (#[trigger] groups@[j]).host@,
                        ) || crate::registry::has_name(server.host@, groups@[j].host@) by {
                            if j < groups_pre.len() {
                                assert(groups@[j] == groups_pre[j]);
                            } else {
                                assert(groups@[j] == wtg);
                                assert((server.host@[hi as int])@ == wtg.host@);
                                assert(crate::registry::has_name(server.host@, wtg.host@));
                            }
                        }
                        assert forall|h2: Seq<char>| host_seen(cfg.servers@, i as int, h2)
                            implies exists|j: int| 0 <= j < groups@.len() && (
                        #[trigger] groups@[j]).host@ == h2 by {
                            let j0 = choose|j0: int| 0 <= j0 < groups_pre.len()
                                && groups_pre[j0].host@ == h2;
                            assert(groups@[j0].host@ == h2);
                        }
                        assert forall|hk: int| #![trigger server.host@[hk]] 0 <= hk < hi + 1
                            implies exists|j: int| 0 <= j < groups@.len() && (
                        #[trigger] groups@[j]).host@ == (server.host@[hk])@ by {
                            if hk < hi {
                                let j0 = choose|j0: int| 0 <= j0 < groups_pre.len()
                                    && groups_pre[j0].host@ == (server.host@[hk])@;
                                assert(groups@[j0].host@ == (server.host@[hk])@);
                            } else {
                                assert(groups@[groups_pre.len() as int].host@ == (
                                server.host@[hi as int])@);
                            }
                        }
                        assert(server_like(wtg.servers@[0], cfg.servers@[i as int]));
                        assert(crate::registry::has_name(cfg.servers@[i as int].host@, wtg.host@));
                        // no earlier declaration names the new host: its group
                        // would already exist
                        assert forall|k: int|
                            0 <= k < i && crate::registry::has_name(
                                (#[trigger] cfg.servers@[k]).host@,
                                wtg.host@,
                            ) implies false by {
                            assert(host_seen(cfg.servers@, i as int, wtg.host@));
                            let j0 = choose|j0: int| 0 <= j0 < groups_pre.len()
                                && groups_pre[j0].host@ == wtg.host@;
                        }
                        assert forall|j: int| 0 <= j < groups@.len() implies exists|k: int, e: int|
                            #![trigger cfg.servers@[k], cfg.templates@[e]]
                            0 <= k < cfg.servers@.len() && 0 <= e < cfg.templates@.len()
                                && crate::registry::has_name(
                                cfg.servers@[k].host@,
                                (#[trigger] groups@[j]).host@,
                            ) && cfg.templates@[e].0@ == cfg.servers@[k].template@
                                && cfg.templates@[e].1 == groups@[j].template && (forall|k2: int|
                                0 <= k2 < k ==> !crate::registry::has_name(
                                    (#[trigger] cfg.servers@[k2]).host@,
                                    groups@[j].host@,
                                )) by {
                            if j < groups_pre.len() {
                                assert(groups@[j] == groups_pre[j]);
                            } else {
                                assert(groups@[j] == wtg);
                                assert(wtg.template == tmpl);
                                let e0 = choose|e0: int|
                                    0 <= e0 < cfg.templates@.len() && (
                                    #[trigger] cfg.templates@[e0]).0@
                                        == cfg.servers@[i as int].template@ && cfg.templates@[e0].1
                                        == tmpl;
                            }
                        }
                        lemma_decls_naming_step(cfg.servers@, i as int, h@);
                        lemma_decls_naming_none(cfg.servers@.take(i as int), h@);
                        assert(crate::registry::has_name(cfg.servers@[i as int].host@, h@));
                        let ghost hip = hi as int + 1;
                        assert forall|j: int| 0 <= j < groups@.len() implies servers_match(
                            (#[trigger] groups@[j]).servers@,
                            decls_naming(
                                cfg.servers@.take(
                                    if exists|hk: int|
                                        0 <= hk < hip && (#[trigger] server.host@[hk])@
                                            == groups@[j].host@ {
                                        i as int + 1
                                    } else {
                                        i as int
                                    },
                                ),
                                groups@[j].host@,
                            ),
                        ) by {
                            if j < groups_pre.len() {
                                assert(groups@[j] == groups_pre[j]);
                                assert(groups@[j].host@ != h@);
                                if exists|hk: int|
                                    0 <= hk < hip && (#[trigger] server.host@[hk])@
                                        == groups@[j].host@ {
                                    let hk0 = choose|hk0: int|
                                        0 <= hk0 < hip && (#[trigger] server.host@[hk0])@
                                            == groups@[j].host@;
                                    assert(hk0 < hi);
                                }
                            } else {
                                assert(groups@[j] == wtg);
                                assert((server.host@[hi as int])@ == wtg.host@);
                                assert(decls_naming(cfg.servers@.take(i as int + 1), h@)
                                    == decls_naming(cfg.servers@.take(i as int), h@).push(
                                    cfg.servers@[i as int],
                                ));
                                assert(wtg.servers@.len() == 1);
                                assert(server_like(wtg.servers@[0], cfg.servers@[i as int]));
                            }
                        }
                    }
                },
            }
            hi = hi + 1;
        }
        proof {
            let ghost ni = i as int + 1;
            assert forall|h: Seq<char>| #[trigger] host_seen(cfg.servers@, ni, h) implies exists|
                j: int,
            | 0 <= j < groups@.len() && (#[trigger] groups@[j]).host@ == h by {
                let k = choose|k: int| 0 <= k < ni && crate::registry::has_name(
                    cfg.servers@[k].host@,
                    h,
                );
                if k < i {
                    assert(host_seen(cfg.servers@, i as int, h));
                } else {
                    let hk = choose|hk: int| 0 <= hk < server.host@.len() && (server.host@[hk])@
                        == h;
                }
            }
            assert forall|j: int| 0 <= j < groups@.len() implies host_seen(
                cfg.servers@,
                ni,
                (#[trigger] groups@[j]).host@,
            ) by {
                if host_seen(cfg.servers@, i as int, groups@[j].host@) {
                    let k = choose|k: int| 0 <= k < i as int && crate::registry::has_name(
                        cfg.servers@[k].host@,
                        groups@[j].host@,
                    );
                } else {
                    assert(crate::registry::has_name(cfg.servers@[i as int].host@, groups@[j].host@));
                }
            }
            assert forall|j: int| 0 <= j < groups@.len() implies servers_match(
                (#[trigger] groups@[j]).servers@,
                decls_naming(cfg.servers@.take(ni), groups@[j].host@),
            ) by {
                lemma_decls_naming_step(cfg.servers@, i as int, groups@[j].host@);
                if crate::registry::has_name(cfg.servers@[i as int].host@, groups@[j].host@) {
                    let hk = choose|hk: int|
                        0 <= hk < server.host@.len() && (#[trigger] server.host@[hk])@
                            == groups@[j].host@;
                } else {
                    if exists|hk: int|
                        0 <= hk < server.host@.len() && (#[trigger] server.host@[hk])@
                            == groups@[j].host@ {
                        let hk0 = choose|hk0: int|
                            0 <= hk0 < server.host@.len() && (#[trigger] server.host@[hk0])@
                                == groups@[j].host@;
                        assert(crate::registry::has_name(
                            cfg.servers@[i as int].host@,
                            groups@[j].host@,
                        ));
                    }
                }
            }
        }
        i = i + 1;
    }
    proof {
        assert(cfg.servers@.take(cfg.servers@.len() as int) =~= cfg.servers@);
        assert forall|j: int| 0 <= j < groups@.len() implies servers_match(
            (#[trigger] groups@[j]).servers@,
            decls_naming(cfg.servers@, groups@[j].host@),
        ) by {
            assert(servers_match(
                groups@[j].servers@,
                decls_naming(cfg.servers@.take(cfg.servers@.len() as int), groups@[j].host@),
            ));
        }
    }
    Ok(groups)
}

/// Renders every group to its configuration block, in group order.
pub fn render_templates(groups: &Vec<WebTemplate>) -> (r: Vec<String>)
    ensures
        r@.len() == groups@.len(),
        forall|j: int| 0 <= j < groups@.len() ==> (#[trigger] r@[j])@ == template_output(
            groups@[j],
        ),
{
    let mut out: Vec<String> = Vec::new();
    let mut j: usize = 0;
    while j < groups.len()
        invariant
            j <= groups.len(),
            out@.len() == j,
            forall|k: int| 0 <= k < j ==> (#[trigger] out@[k])@ == template_output(groups@[k]),
        decreases groups.len() - j,
    {
        out.push(groups[j].to_config_string());
        j = j + 1;
    }
    out
}

} // verus!
