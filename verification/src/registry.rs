//! The core registry: server groups keyed by (host, interface) combinations,
//! mutated only by the partitioning algorithm in [`Registry::add_server`].

use vstd::prelude::*;
use vstd::string::StringExecFns;
use std::sync::Arc;

verus! {

/// How a registration resolves a conflict when its target slot is occupied.
#[derive(Clone, Copy, PartialEq, Eq, Structural, Debug)]
pub enum OverwritePolicy {
    Error,
    Ignore,
    Overwrite,
}

/// Errors returned by the registry.
#[derive(Clone, Copy, PartialEq, Eq, Structural, Debug)]
pub enum RegistryError {
    /// The registration named no host.
    EmptyHostList,
    /// The registration named no interface.
    EmptyInterfaceList,
    /// Policy `Error` hit an occupied slot during the partitioning walk.
    AlreadyExists,
}

/// Rendering a backend to target-syntax text failed.
#[derive(Clone, PartialEq, Eq, Debug)]
pub struct RenderError {
    pub message: String,
}

/// One backend target (proxy, rewrite, static file root, ...), identified by
/// a stable key and able to render itself to target-syntax text.
///
/// The registry never calls these methods; they serve the renderer.
pub trait BackendDescriptor {
    fn get_key(&self) -> String;

    fn to_backend_config(&self) -> Result<String, RenderError>;
}

/// The protocol class of a listening interface; a grouping tag.
#[derive(Clone, Copy, PartialEq, Eq, Structural, Debug)]
pub enum ServerInterfaceAttribute {
    Http,
    Https,
}

/// One listening binding: a port together with its protocol class.
#[derive(Clone, Copy, PartialEq, Eq, Structural, Debug)]
pub struct ServerInterface {
    pub port: u16,
    pub attr: ServerInterfaceAttribute,
}

impl RegistryError {
    /// The diagnostic text for this error, in the shape of a formatted
    /// `std::io::Error` carrying the matching kind and message.
    pub fn describe(&self) -> (r: String)
        ensures
            *self == RegistryError::EmptyHostList ==> r@ == "Custom { kind: InvalidData, error: \"host is empty list\" }"@,
            *self == RegistryError::EmptyInterfaceList ==> r@ == "Custom { kind: InvalidData, error: \"interface is empty list\" }"@,
            *self == RegistryError::AlreadyExists ==> r@ == "Custom { kind: AlreadyExists, error: \"Cannot overwrite existed server\" }"@,
    {
        match self {
            RegistryError::EmptyHostList => "Custom { kind: InvalidData, error: \"host is empty list\" }".to_owned(),
            RegistryError::EmptyInterfaceList => "Custom { kind: InvalidData, error: \"interface is empty list\" }".to_owned(),
            RegistryError::AlreadyExists => "Custom { kind: AlreadyExists, error: \"Cannot overwrite existed server\" }".to_owned(),
        }
    }
}

/// Relies on `alloc::sync::Arc::clone`: the clone is another pointer to the
/// same allocation, so it carries the same value.
#[verifier::external_body]
fn clone_arc<T>(a: &Arc<T>) -> (res: Arc<T>)
    ensures
        res == *a,
{
    a.clone()
}

/// Does the list hold a name that reads `h`?
pub open spec fn has_name(v: Seq<String>, h: Seq<char>) -> bool {
    exists|j: int| 0 <= j < v.len() && (#[trigger] v[j])@ == h
}

/// Are the names of a host list pairwise distinct?
pub open spec fn names_distinct(v: Seq<String>) -> bool {
    forall|a: int, b: int| 0 <= a < b < v.len() ==> (#[trigger] v[a])@ != (#[trigger] v[b])@
}

/// The hosts of a group list whose names the request also names, in group
/// order.
pub open spec fn hosts_in(gh: Seq<String>, req: Seq<String>) -> Seq<String> {
    gh.filter(|s: String| has_name(req, s@))
}

/// The hosts of a group list whose names the request does not name, in group
/// order.
pub open spec fn hosts_not_in(gh: Seq<String>, req: Seq<String>) -> Seq<String> {
    gh.filter(|s: String| !has_name(req, s@))
}

/// The interfaces of a group that the request does not mention, in group
/// order.
pub open spec fn ifs_not_in(g_ifs: Seq<ServerInterface>, req: Seq<ServerInterface>) -> Seq<ServerInterface> {
    g_ifs.filter(|x: ServerInterface| !req.contains(x))
}

/// Are the keys of a location table pairwise distinct?
pub open spec fn keys_unique<D: BackendDescriptor>(s: Seq<(String, Arc<D>)>) -> bool {
    forall|a: int, b: int| 0 <= a < b < s.len() ==> (#[trigger] s[a]).0@ != (#[trigger] s[b]).0@
}

/// Does the location table hold an entry for path `p`?
pub open spec fn has_key<D: BackendDescriptor>(s: Seq<(String, Arc<D>)>, p: Seq<char>) -> bool {
    exists|k: int| 0 <= k < s.len() && (#[trigger] s[k]).0@ == p
}

/// One desired attachment: a backend for every (host, interface) pair of
/// `host` x `interface`, at `location` (or the default slot if absent).
/// Transient; fully consumed by one [`Registry::add_server`] call.
pub struct WebServerInstance<D: BackendDescriptor> {
    pub host: Vec<String>,
    pub interface: Vec<ServerInterface>,
    pub location: Option<String>,
    pub descriptor: Arc<D>,
}

/// A persistent server group: every (host, interface) pair of
/// `host` x `interface` shares the whole `subservers` table and the default
/// `server` backend uniformly.
pub struct WebServer<D: BackendDescriptor> {
    pub host: Vec<String>,
    pub interface: Vec<ServerInterface>,
    pub subservers: Vec<(String, Arc<D>)>,
    pub server: Option<Arc<D>>,
}

impl<D: BackendDescriptor> WebServer<D> {
    /// A group retained in the registry never has an empty host or
    /// interface list, and its location table binds each path once.
    pub open spec fn wf(self) -> bool {
        &&& self.host.len() > 0
        &&& self.interface.len() > 0
        &&& keys_unique(self.subservers@)
    }

    /// The host names of this group, as a set.
    pub open spec fn hosts_set(self) -> Set<Seq<char>> {
        names_set(self.host@)
    }

    /// The interfaces of this group, as a set.
    pub open spec fn interfaces_set(self) -> Set<ServerInterface> {
        self.interface@.to_set()
    }

    /// The location table of this group, path by path.
    pub open spec fn locations(self) -> Map<Seq<char>, Arc<D>> {
        Map::new(
            |p: Seq<char>| exists|k: int| 0 <= k < self.subservers.len() && (#[trigger] self.subservers[k]).0@ == p,
            |p: Seq<char>| self.subservers[last_key_index(self.subservers@, p)].1,
        )
    }
}

/// The index of the last entry of `s` whose key views as `p`; the value
/// that a lookup in an insertion-ordered association list yields.
pub open spec fn last_key_index<D: BackendDescriptor>(s: Seq<(String, Arc<D>)>, p: Seq<char>) -> int {
    choose|k: int| 0 <= k < s.len() && (#[trigger] s[k]).0@ == p
}

impl<D: BackendDescriptor> Clone for WebServer<D> {
    /// A split clones a group; the clone shares the backend references.
    fn clone(&self) -> (res: Self)
        ensures
            res.host@ == self.host@,
            res.interface@ == self.interface@,
            res.subservers@ == self.subservers@,
            res.server == self.server,
    {
        let res = WebServer {
            host: clone_strings(&self.host),
            interface: clone_interfaces(&self.interface),
            subservers: clone_subservers(&self.subservers),
            server: match &self.server {
                Some(d) => Some(clone_arc(d)),
                None => None,
            },
        };
        proof {
            assert(res.host@ =~= self.host@);
            assert(res.interface@ =~= self.interface@);
            assert(res.subservers@ =~= self.subservers@);
        }
        res
    }
}

/// Copies a host list element by element.
fn clone_strings(v: &Vec<String>) -> (r: Vec<String>)
    ensures
        r@ =~= v@,
{
    let mut r: Vec<String> = Vec::new();
    let mut i: usize = 0;
    while i < v.len()
        invariant
            i <= v.len(),
            r@ =~= v@.take(i as int),
        decreases v.len() - i,
    {
        r.push(v[i].clone());
        proof {
            assert(r@ =~= v@.take(i as int + 1));
        }
        i = i + 1;
    }
    proof {
        assert(v@.take(v.len() as int) =~= v@);
    }
    r
}

/// Copies an interface list element by element.
fn clone_interfaces(v: &Vec<ServerInterface>) -> (r: Vec<ServerInterface>)
    ensures
        r@ =~= v@,
{
    let mut r: Vec<ServerInterface> = Vec::new();
    let mut i: usize = 0;
    while i < v.len()
        invariant
            i <= v.len(),
            r@ =~= v@.take(i as int),
        decreases v.len() - i,
    {
        r.push(v[i]);
        proof {
            assert(r@ =~= v@.take(i as int + 1));
        }
        i = i + 1;
    }
    proof {
        assert(v@.take(v.len() as int) =~= v@);
    }
    r
}

/// Copies a location table; the copy shares the backend references.
fn clone_subservers<D: BackendDescriptor>(v: &Vec<(String, Arc<D>)>) -> (r: Vec<(String, Arc<D>)>)
    ensures
        r@ =~= v@,
{
    let mut r: Vec<(String, Arc<D>)> = Vec::new();
    let mut i: usize = 0;
    while i < v.len()
        invariant
            i <= v.len(),
            r@ =~= v@.take(i as int),
        decreases v.len() - i,
    {
        let entry = &v[i];
        r.push((entry.0.clone(), clone_arc(&entry.1)));
        proof {
            assert(r@ =~= v@.take(i as int + 1));
        }
        i = i + 1;
    }
    proof {
        assert(v@.take(v.len() as int) =~= v@);
    }
    r
}

/// Does `v` hold a name equal to `x`?
fn contains_name(v: &Vec<String>, x: &String) -> (r: bool)
    ensures
        r == has_name(v@, x@),
{
    let mut j: usize = 0;
    while j < v.len()
        invariant
            j <= v.len(),
            forall|k: int| 0 <= k < j ==> (#[trigger] v@[k])@ != x@,
        decreases v.len() - j,
    {
        if v[j] == *x {
            return true;
        }
        j = j + 1;
    }
    false
}

/// The first position in `v` holding a name equal to `x`, if any.
fn index_of_name(v: &Vec<String>, x: &String) -> (r: Option<usize>)
    ensures
        match r {
            Some(i) => i < v.len() && v@[i as int]@ == x@ && (forall|k: int|
                0 <= k < i ==> (#[trigger] v@[k])@ != x@),
            None => forall|k: int| 0 <= k < v.len() ==> (#[trigger] v@[k])@ != x@,
        },
{
    let mut j: usize = 0;
    while j < v.len()
        invariant
            j <= v.len(),
            forall|k: int| 0 <= k < j ==> (#[trigger] v@[k])@ != x@,
        decreases v.len() - j,
    {
        if v[j] == *x {
            return Some(j);
        }
        j = j + 1;
    }
    None
}

/// Does `v` hold the interface `x`?
fn contains_interface(v: &Vec<ServerInterface>, x: ServerInterface) -> (r: bool)
    ensures
        r == v@.contains(x),
{
    let mut j: usize = 0;
    while j < v.len()
        invariant
            j <= v.len(),
            forall|k: int| 0 <= k < j ==> v@[k] != x,
        decreases v.len() - j,
    {
        if v[j] == x {
            return true;
        }
        j = j + 1;
    }
    false
}

/// The first position in the location table whose key equals `key`, if any.
fn find_key<D: BackendDescriptor>(s: &Vec<(String, Arc<D>)>, key: &String) -> (r: Option<usize>)
    ensures
        match r {
            Some(j) => j < s.len() && s@[j as int].0@ == key@,
            None => forall|k: int| 0 <= k < s.len() ==> (#[trigger] s@[k]).0@ != key@,
        },
{
    let mut j: usize = 0;
    while j < s.len()
        invariant
            j <= s.len(),
            forall|k: int| 0 <= k < j ==> (#[trigger] s@[k]).0@ != key@,
        decreases s.len() - j,
    {
        if s[j].0 == *key {
            return Some(j);
        }
        j = j + 1;
    }
    None
}

/// Membership in a pushed-to list: the old members and the new one.
proof fn lemma_contains_push<A>(s: Seq<A>, x: A)
    ensures
        forall|y: A| #[trigger] s.push(x).contains(y) <==> s.contains(y) || y == x,
{
    assert forall|y: A| #[trigger] s.push(x).contains(y) implies s.contains(y) || y == x by {
        let w = choose|w: int| 0 <= w < s.push(x).len() && s.push(x)[w] == y;
        if w < s.len() {
            assert(s[w] == y);
        }
    }
    assert forall|y: A| s.contains(y) implies #[trigger] s.push(x).contains(y) by {
        let w = choose|w: int| 0 <= w < s.len() && s[w] == y;
        assert(s.push(x)[w] == y);
    }
    assert(s.push(x)[s.len() as int] == x);
}

/// Names found in a pushed-to host list: the old names and the new one.
proof fn lemma_has_name_push(s: Seq<String>, x: String)
    ensures
        forall|h: Seq<char>| #[trigger] has_name(s.push(x), h) <==> has_name(s, h) || x@ == h,
{
    assert forall|h: Seq<char>| #[trigger] has_name(s.push(x), h) implies has_name(s, h) || x@ == h by {
        let w = choose|w: int| 0 <= w < s.push(x).len() && (s.push(x)[w])@ == h;
        if w < s.len() {
            assert(s[w]@ == h);
        }
    }
    assert forall|h: Seq<char>| has_name(s, h) implies #[trigger] has_name(s.push(x), h) by {
        let w = choose|w: int| 0 <= w < s.len() && (s[w])@ == h;
        assert(s.push(x)[w]@ == h);
    }
    assert(s.push(x)[s.len() as int] == x);
}

/// Splits a group's host list against the remaining hosts of a work pair.
///
/// Group hosts found in `ph` move to the first result (the known hosts) and
/// are consumed from `ph`, one occurrence each; the rest of the group's
/// hosts land in the second result (the other hosts).
#[verifier::loop_isolation(false)]
fn partition_hosts(gh: &Vec<String>, ph: &mut Vec<String>) -> (r: (Vec<String>, Vec<String>))
    ensures
        forall|h: Seq<char>| #[trigger] has_name(r.0@, h) ==> has_name(gh@, h) && has_name(old(ph)@, h),
        forall|h: Seq<char>| #[trigger] has_name(r.1@, h) ==> has_name(gh@, h),
        forall|h: Seq<char>| #[trigger] has_name(gh@, h) ==> has_name(r.0@, h) || has_name(r.1@, h),
        forall|h: Seq<char>| #[trigger] has_name(final(ph)@, h) ==> has_name(old(ph)@, h),
        forall|h: Seq<char>| #[trigger] has_name(old(ph)@, h) ==> has_name(final(ph)@, h) || has_name(r.0@, h),
        old(ph)@.len() == final(ph)@.len() + r.0@.len(),
        gh@ == old(ph)@ ==> r.0@ == gh@ && r.1@.len() == 0 && final(ph)@.len() == 0,
        (names_distinct(gh@) && names_distinct(old(ph)@) && (forall|k: int|
            0 <= k < old(ph)@.len() ==> has_name(gh@, (#[trigger] old(ph)@[k])@))) ==> (
        final(ph)@.len() == 0 && (forall|h: Seq<char>| #[trigger] has_name(r.0@, h) <==> has_name(
            old(ph)@,
            h,
        )) && (forall|h: Seq<char>| #[trigger] has_name(r.1@, h) <==> has_name(gh@, h) && !has_name(
            old(ph)@,
            h,
        )) && r.0@ == hosts_in(gh@, old(ph)@) && r.1@ == hosts_not_in(gh@, old(ph)@)),
{
    let ghost exact = gh@ == old(ph)@;
    let ghost subd = names_distinct(gh@) && names_distinct(old(ph)@) && (forall|k: int|
        0 <= k < old(ph)@.len() ==> has_name(gh@, (#[trigger] old(ph)@[k])@));
    let mut kh: Vec<String> = Vec::new();
    let mut oh: Vec<String> = Vec::new();
    proof {
        reveal(Seq::filter);
        assert(gh@.take(0) =~= Seq::<String>::empty());
    }
    let mut j: usize = 0;
    while j < gh.len()
        invariant
            j <= gh.len(),
            forall|h: Seq<char>| #[trigger] has_name(kh@, h) ==> has_name(gh@, h) && has_name(old(ph)@, h),
            forall|h: Seq<char>| #[trigger] has_name(oh@, h) ==> has_name(gh@, h),
            forall|k: int| 0 <= k < j ==> has_name(kh@, (#[trigger] gh@[k])@) || has_name(oh@, gh@[k]@),
            forall|h: Seq<char>| #[trigger] has_name(ph@, h) ==> has_name(old(ph)@, h),
            forall|h: Seq<char>| #[trigger] has_name(old(ph)@, h) ==> has_name(ph@, h) || has_name(kh@, h),
            old(ph)@.len() == ph@.len() + kh@.len(),
            exact ==> kh@ == gh@.take(j as int) && oh@.len() == 0 && ph@ == gh@.skip(j as int),
            subd ==> names_distinct(ph@),
            subd ==> (forall|h: Seq<char>| #[trigger] has_name(ph@, h) <==> has_name(old(ph)@, h)
                && !has_name(kh@, h)),
            subd ==> (forall|h: Seq<char>| #[trigger] has_name(kh@, h) ==> has_name(old(ph)@, h)
                && has_name(gh@.take(j as int), h)),
            subd ==> (forall|h: Seq<char>| #[trigger] has_name(oh@, h) ==> has_name(
                gh@.take(j as int),
                h,
            ) && !has_name(old(ph)@, h)),
            subd ==> (forall|k: int| 0 <= k < j ==> has_name(kh@, (#[trigger] gh@[k])@) || has_name(
                oh@,
                gh@[k]@,
            )),
            subd ==> kh@ == hosts_in(gh@.take(j as int), old(ph)@) && oh@ == hosts_not_in(
                gh@.take(j as int),
                old(ph)@,
            ),
        decreases gh.len() - j,
    {
        let ghost ph_pre = ph@;
        let ghost kh_pre = kh@;
        let ghost oh_pre = oh@;
        let h = &gh[j];
        match index_of_name(ph, h) {
            Some(id) => {
                let hc = h.clone();
                kh.push(hc);
                ph.remove(id);
                proof {
                    if exact {
                        assert(ph_pre[0] == gh@[j as int]);
                        assert(id == 0);
                        assert(ph@ =~= gh@.skip(j as int + 1));
                        assert(kh@ =~= gh@.take(j as int + 1));
                    }
                    if subd {
                        // a distinct list loses exactly the matched name
                        assert(ph_pre[id as int]@ == gh@[j as int]@);
                        assert forall|a: int, b: int| 0 <= a < b < ph@.len() implies (
                        #[trigger] ph@[a])@ != (#[trigger] ph@[b])@ by {
                            let a2: int = if a < id { a } else { a + 1 };
                            let b2: int = if b < id { b } else { b + 1 };
                            assert(ph@[a] == ph_pre[a2]);
                            assert(ph@[b] == ph_pre[b2]);
                        }
                        assert forall|hh: Seq<char>| #[trigger] has_name(ph@, hh) implies has_name(
                            ph_pre,
                            hh,
                        ) && hh != gh@[j as int]@ by {
                            let w = choose|w: int| 0 <= w < ph@.len() && (ph@[w])@ == hh;
                            if w < id {
                                assert(ph_pre[w]@ == hh);
                            } else {
                                assert(ph@[w] == ph_pre[w + 1]);
                            }
                        }
                        assert forall|hh: Seq<char>|
                            has_name(ph_pre, hh) && hh != gh@[j as int]@ implies #[trigger] has_name(
                            ph@,
                            hh,
                        ) by {
                            let w = choose|w: int| 0 <= w < ph_pre.len() && (ph_pre[w])@ == hh;
                            if w < id {
                                assert(ph@[w] == ph_pre[w]);
                            } else if w > id {
                                assert(ph@[w - 1] == ph_pre[w]);
                            }
                        }
                        assert(has_name(gh@.take(j as int + 1), gh@[j as int]@)) by {
                            assert(gh@.take(j as int + 1)[j as int] == gh@[j as int]);
                        }
                        reveal(Seq::filter);
                        let t = gh@.take(j as int + 1);
                        assert(t.drop_last() =~= gh@.take(j as int));
                        assert(t.last() == gh@[j as int]);
                        assert(has_name(ph_pre, gh@[j as int]@));
                        assert(has_name(old(ph)@, gh@[j as int]@));
                        assert(kh@ == hosts_in(t, old(ph)@));
                        assert(oh@ == hosts_not_in(t, old(ph)@));
                    }
                    lemma_has_name_push(kh_pre, gh@[j as int]);
                    assert(kh@ == kh_pre.push(gh@[j as int]));
                    assert(ph_pre[id as int]@ == gh@[j as int]@);
                    assert(has_name(ph_pre, gh@[j as int]@));
                    assert forall|hh: Seq<char>| #[trigger] has_name(ph@, hh) implies has_name(ph_pre, hh) by {
                        let w = choose|w: int| 0 <= w < ph@.len() && (ph@[w])@ == hh;
                        if w < id {
                            assert(ph_pre[w]@ == hh);
                        } else {
                            assert(ph@[w] == ph_pre[w + 1]);
                        }
                    }
                    assert forall|hh: Seq<char>| #[trigger] has_name(ph_pre, hh) implies has_name(ph@, hh)
                        || has_name(kh@, hh) by {
                        let w = choose|w: int| 0 <= w < ph_pre.len() && (ph_pre[w])@ == hh;
                        if w == id {
                            assert(has_name(kh@, hh));
                        } else if w < id {
                            assert(ph@[w] == ph_pre[w]);
                        } else {
                            assert(ph@[w - 1] == ph_pre[w]);
                        }
                    }
                }
            },
            None => {
                let hc = h.clone();
                oh.push(hc);
                proof {
                    if exact {
                        assert(ph_pre[0] == gh@[j as int]);
                    }
                    if subd {
                        // the current group name never stood in the pair: had it
                        // been consumed earlier, an earlier group name would
                        // equal this one, against distinctness
                        assert(!has_name(ph_pre, gh@[j as int]@));
                        if has_name(old(ph)@, gh@[j as int]@) {
                            assert(has_name(kh@, gh@[j as int]@));
                            let w = choose|w: int| 0 <= w < kh@.len() && (kh@[w])@ == gh@[j as int]@;
                            let k2 = choose|k2: int|
                                0 <= k2 < j && (gh@.take(j as int)[k2])@ == gh@[j as int]@;
                            assert(gh@[k2]@ == gh@[j as int]@);
                        }
                        assert(has_name(gh@.take(j as int + 1), gh@[j as int]@)) by {
                            assert(gh@.take(j as int + 1)[j as int] == gh@[j as int]);
                        }
                        reveal(Seq::filter);
                        let t = gh@.take(j as int + 1);
                        assert(t.drop_last() =~= gh@.take(j as int));
                        assert(t.last() == gh@[j as int]);
                        assert(kh@ == hosts_in(t, old(ph)@));
                        assert(oh@ == hosts_not_in(t, old(ph)@));
                    }
                    lemma_has_name_push(oh_pre, gh@[j as int]);
                    assert(oh@ == oh_pre.push(gh@[j as int]));
                }
            },
        }
        j = j + 1;
    }
    proof {
        if exact {
            assert(kh@ =~= gh@);
            assert(ph@ =~= gh@.skip(gh@.len() as int));
        }
        if subd {
            assert(gh@.take(gh@.len() as int) =~= gh@);
            assert forall|h: Seq<char>| has_name(old(ph)@, h) implies #[trigger] has_name(
                kh@,
                h,
            ) by {
                let w = choose|w: int| 0 <= w < old(ph)@.len() && (old(ph)@[w])@ == h;
                assert(has_name(gh@, h));
                let k2 = choose|k2: int| 0 <= k2 < gh@.len() && (gh@[k2])@ == h;
                assert(has_name(kh@, gh@[k2]@) || has_name(oh@, gh@[k2]@));
            }
            assert forall|h: Seq<char>|
                has_name(gh@, h) && !has_name(old(ph)@, h) implies #[trigger] has_name(
                oh@,
                h,
            ) by {
                let k2 = choose|k2: int| 0 <= k2 < gh@.len() && (gh@[k2])@ == h;
                assert(has_name(kh@, gh@[k2]@) || has_name(oh@, gh@[k2]@));
            }
            if ph.len() > 0 {
                assert(has_name(ph@, (ph@[0])@));
                assert(has_name(kh@, (ph@[0])@));
            }
            assert(gh@.take(gh@.len() as int) =~= gh@);
        }
    }
    (kh, oh)
}

/// Splits a pair's working interface set against a group's interfaces:
/// those the group already listens on (known) and those it does not
/// (unknown), in the pair's order.
#[verifier::loop_isolation(false)]
fn split_interfaces(pair_ifs: &Vec<ServerInterface>, group_ifs: &Vec<ServerInterface>) -> (r: (
    Vec<ServerInterface>,
    Vec<ServerInterface>,
))
    ensures
        forall|x: ServerInterface| #[trigger] r.0@.contains(x) <==> pair_ifs@.contains(x) && group_ifs@.contains(x),
        forall|x: ServerInterface| #[trigger] r.1@.contains(x) <==> pair_ifs@.contains(x) && !group_ifs@.contains(x),
        r.0@.len() + r.1@.len() == pair_ifs@.len(),
        (forall|k: int| 0 <= k < pair_ifs@.len() ==> group_ifs@.contains(#[trigger] pair_ifs@[k]))
            ==> r.0@ == pair_ifs@ && r.1@.len() == 0,
{
    let ghost allin = forall|k: int| 0 <= k < pair_ifs@.len() ==> group_ifs@.contains(
        #[trigger] pair_ifs@[k],
    );
    let mut known: Vec<ServerInterface> = Vec::new();
    let mut unknown: Vec<ServerInterface> = Vec::new();
    let mut j: usize = 0;
    while j < pair_ifs.len()
        invariant
            j <= pair_ifs.len(),
            forall|x: ServerInterface| #[trigger] known@.contains(x) ==> pair_ifs@.contains(x) && group_ifs@.contains(x),
            forall|x: ServerInterface| #[trigger] unknown@.contains(x) ==> pair_ifs@.contains(x) && !group_ifs@.contains(x),
            forall|k: int| 0 <= k < j ==> known@.contains(#[trigger] pair_ifs@[k]) || unknown@.contains(pair_ifs@[k]),
            known@.len() + unknown@.len() == j,
            allin ==> known@ == pair_ifs@.take(j as int) && unknown@.len() == 0,
        decreases pair_ifs.len() - j,
    {
        let ghost known_pre = known@;
        let ghost unknown_pre = unknown@;
        let v = pair_ifs[j];
        if contains_interface(group_ifs, v) {
            known.push(v);
            proof {
                lemma_contains_push(known_pre, v);
                if allin {
                    assert(known@ =~= pair_ifs@.take(j as int + 1));
                }
            }
        } else {
            unknown.push(v);
            proof {
                if allin {
                    assert(group_ifs@.contains(pair_ifs@[j as int]));
                }
                lemma_contains_push(unknown_pre, v);
            }
        }
        j = j + 1;
    }
    proof {
        if allin {
            assert(known@ =~= pair_ifs@);
        }
        assert forall|x: ServerInterface|
            pair_ifs@.contains(x) && group_ifs@.contains(x) implies #[trigger] known@.contains(x) by {
            let w = choose|w: int| 0 <= w < pair_ifs@.len() && pair_ifs@[w] == x;
            assert(known@.contains(pair_ifs@[w]) || unknown@.contains(pair_ifs@[w]));
        }
        assert forall|x: ServerInterface|
            pair_ifs@.contains(x) && !group_ifs@.contains(x) implies #[trigger] unknown@.contains(x) by {
            let w = choose|w: int| 0 <= w < pair_ifs@.len() && pair_ifs@[w] == x;
            assert(known@.contains(pair_ifs@[w]) || unknown@.contains(pair_ifs@[w]));
        }
    }
    (known, unknown)
}

/// The group interfaces that the registration did not mention: those not in
/// the known list.
#[verifier::loop_isolation(false)]
fn complement_interfaces(group_ifs: &Vec<ServerInterface>, known: &Vec<ServerInterface>) -> (r:
    Vec<ServerInterface>)
    ensures
        forall|x: ServerInterface| #[trigger] r@.contains(x) <==> group_ifs@.contains(x) && !known@.contains(x),
        (forall|k: int| 0 <= k < group_ifs@.len() ==> known@.contains(#[trigger] group_ifs@[k]))
            ==> r@.len() == 0,
        r@ == ifs_not_in(group_ifs@, known@),
{
    proof {
        reveal(Seq::filter);
        assert(group_ifs@.take(0) =~= Seq::<ServerInterface>::empty());
    }
    let ghost covered = forall|k: int| 0 <= k < group_ifs@.len() ==> known@.contains(
        #[trigger] group_ifs@[k],
    );
    let mut other: Vec<ServerInterface> = Vec::new();
    let mut j: usize = 0;
    while j < group_ifs.len()
        invariant
            j <= group_ifs.len(),
            forall|x: ServerInterface| #[trigger] other@.contains(x) ==> group_ifs@.contains(x) && !known@.contains(x),
            forall|k: int| 0 <= k < j ==> known@.contains(#[trigger] group_ifs@[k]) || other@.contains(group_ifs@[k]),
            covered ==> other@.len() == 0,
            other@ == ifs_not_in(group_ifs@.take(j as int), known@),
        decreases group_ifs.len() - j,
    {
        let ghost other_pre = other@;
        let v = group_ifs[j];
        if !contains_interface(known, v) {
            other.push(v);
            proof {
                if covered {
                    assert(known@.contains(group_ifs@[j as int]));
                }
                lemma_contains_push(other_pre, v);
            }
        }
        proof {
            reveal(Seq::filter);
            let t = group_ifs@.take(j as int + 1);
            assert(t.drop_last() =~= group_ifs@.take(j as int));
            assert(t.last() == v);
            assert(other@ == ifs_not_in(t, known@));
        }
        j = j + 1;
    }
    proof {
        assert forall|x: ServerInterface|
            group_ifs@.contains(x) && !known@.contains(x) implies #[trigger] other@.contains(x) by {
            let w = choose|w: int| 0 <= w < group_ifs@.len() && group_ifs@[w] == x;
            assert(known@.contains(group_ifs@[w]) || other@.contains(group_ifs@[w]));
        }
        assert(group_ifs@.take(group_ifs@.len() as int) =~= group_ifs@);
    }
    other
}

/// What one slot application does: how the new group relates to the old one
/// and whether the call succeeds, given the slot, its prior occupancy, and
/// the policy.
pub open spec fn slot_outcome<D: BackendDescriptor>(
    old_g: WebServer<D>,
    new_g: WebServer<D>,
    location: Option<String>,
    descriptor: Arc<D>,
    policy: OverwritePolicy,
    ok: bool,
) -> bool {
    match location {
        Some(loc) => {
            &&& new_g.server == old_g.server
            &&& if has_key(old_g.subservers@, loc@) {
                match policy {
                    OverwritePolicy::Error => !ok && new_g.subservers@ == old_g.subservers@,
                    OverwritePolicy::Ignore => ok && new_g.subservers@ == old_g.subservers@,
                    OverwritePolicy::Overwrite => {
                        &&& ok
                        &&& new_g.subservers@.len() == old_g.subservers@.len()
                        &&& (forall|k: int| 0 <= k < new_g.subservers@.len() ==> (
                        #[trigger] new_g.subservers@[k]).0@ == old_g.subservers@[k].0@)
                        &&& (forall|k: int| 0 <= k < new_g.subservers@.len()
                            && old_g.subservers@[k].0@ != loc@ ==> (
                        #[trigger] new_g.subservers@[k]) == old_g.subservers@[k])
                        &&& (forall|k: int| 0 <= k < new_g.subservers@.len()
                            && old_g.subservers@[k].0@ == loc@ ==> (
                        #[trigger] new_g.subservers@[k]).1 == descriptor)
                    },
                }
            } else {
                &&& ok
                &&& new_g.subservers@.len() == old_g.subservers@.len() + 1
                &&& (forall|k: int| 0 <= k < old_g.subservers@.len() ==> #[trigger] new_g.subservers@[k]
                    == old_g.subservers@[k])
                &&& new_g.subservers@.last().0@ == loc@
                &&& new_g.subservers@.last().1 == descriptor
            }
        },
        None => {
            &&& new_g.subservers@ == old_g.subservers@
            &&& if old_g.server is Some {
                match policy {
                    OverwritePolicy::Error => !ok && new_g.server == old_g.server,
                    OverwritePolicy::Ignore => ok && new_g.server == old_g.server,
                    OverwritePolicy::Overwrite => ok && new_g.server == Some(descriptor),
                }
            } else {
                ok && new_g.server == Some(descriptor)
            }
        },
    }
}

/// Every requested host name stands in the group, some group host is not
/// requested, and both host lists are duplicate-free. (With duplicate names
/// the walk can split a name across both halves, so the two-group laws are
/// stated for duplicate-free lists only.)
pub open spec fn hosts_partial_overlap<D: BackendDescriptor>(g: WebServer<D>, req: Seq<String>) -> bool {
    &&& forall|k: int| 0 <= k < req.len() ==> has_name(g.host@, (#[trigger] req[k])@)
    &&& exists|j: int| 0 <= j < g.host@.len() && !has_name(req, (#[trigger] g.host@[j])@)
    &&& names_distinct(req)
    &&& names_distinct(g.host@)
}

/// The group's host names and the requested names are the same set, both
/// lists duplicate-free.
pub open spec fn hosts_same_set<D: BackendDescriptor>(g: WebServer<D>, req: Seq<String>) -> bool {
    &&& forall|k: int| 0 <= k < req.len() ==> has_name(g.host@, (#[trigger] req[k])@)
    &&& forall|j: int| 0 <= j < g.host@.len() ==> has_name(req, (#[trigger] g.host@[j])@)
    &&& names_distinct(req)
    &&& names_distinct(g.host@)
}

/// The group listens on every requested interface.
pub open spec fn ifs_cover<D: BackendDescriptor>(g: WebServer<D>, req: Seq<ServerInterface>) -> bool {
    forall|k: int| 0 <= k < req.len() ==> g.interface@.contains(#[trigger] req[k])
}

/// The group's interfaces and the requested interfaces are the same set.
pub open spec fn ifs_same_set<D: BackendDescriptor>(g: WebServer<D>, req: Seq<ServerInterface>) -> bool {
    &&& ifs_cover(g, req)
    &&& forall|j: int| 0 <= j < g.interface@.len() ==> req.contains(#[trigger] g.interface@[j])
}

/// The group listens on every requested interface and on at least one more.
pub open spec fn ifs_partial_overlap<D: BackendDescriptor>(g: WebServer<D>, req: Seq<ServerInterface>) -> bool {
    &&& ifs_cover(g, req)
    &&& exists|j: int| 0 <= j < g.interface@.len() && !req.contains(#[trigger] g.interface@[j])
}

/// The mutated half of a host split: it keeps the group hosts the request
/// named, in group order, the whole interface list, and the slot changed per
/// policy (`ok` says whether the call succeeded).
pub open spec fn host_split_kept<D: BackendDescriptor>(
    g0: WebServer<D>,
    a: WebServer<D>,
    location: Option<String>,
    descriptor: Arc<D>,
    policy: OverwritePolicy,
    req_hosts: Seq<String>,
    ok: bool,
) -> bool {
    &&& a.host@ == hosts_in(g0.host@, req_hosts)
    &&& a.interface == g0.interface
    &&& slot_outcome(g0, a, location, descriptor, policy, ok)
}

/// The untouched half of a host split: the group hosts the request did not
/// name, in group order, with interfaces and the whole location table copied
/// unchanged.
pub open spec fn host_split_rest<D: BackendDescriptor>(
    g0: WebServer<D>,
    b: WebServer<D>,
    req_hosts: Seq<String>,
) -> bool {
    &&& b.host@ == hosts_not_in(g0.host@, req_hosts)
    &&& b.interface@ == g0.interface@
    &&& b.subservers@ == g0.subservers@
    &&& b.server == g0.server
}

/// The mutated half of an interface split: it keeps all hosts, exactly the
/// requested interface list, and the slot changed per policy.
pub open spec fn interface_split_kept<D: BackendDescriptor>(
    g0: WebServer<D>,
    a: WebServer<D>,
    location: Option<String>,
    descriptor: Arc<D>,
    policy: OverwritePolicy,
    req_ifs: Seq<ServerInterface>,
    ok: bool,
) -> bool {
    &&& a.host == g0.host
    &&& a.interface@ == req_ifs
    &&& slot_outcome(g0, a, location, descriptor, policy, ok)
}

/// The untouched half of an interface split: all hosts, the interfaces the
/// request did not mention in group order, and the prior tables unchanged.
pub open spec fn interface_split_rest<D: BackendDescriptor>(
    g0: WebServer<D>,
    b: WebServer<D>,
    req_ifs: Seq<ServerInterface>,
) -> bool {
    &&& b.host@ == g0.host@
    &&& b.interface@ == ifs_not_in(g0.interface@, req_ifs)
    &&& b.subservers@ == g0.subservers@
    &&& b.server == g0.server
}

/// Installs the registration's backend in the group's target slot (the path
/// given by `location`, or the default slot), subject to the policy.
fn apply_registration<D: BackendDescriptor>(
    g: &mut WebServer<D>,
    location: &Option<String>,
    descriptor: &Arc<D>,
    policy: OverwritePolicy,
) -> (r: Result<(), RegistryError>)
    requires
        keys_unique(old(g).subservers@),
    ensures
        final(g).host == old(g).host,
        final(g).interface == old(g).interface,
        keys_unique(final(g).subservers@),
        r is Err ==> r == Result::<(), RegistryError>::Err(RegistryError::AlreadyExists)
            && policy == OverwritePolicy::Error && *final(g) == *old(g),
        slot_outcome(*old(g), *final(g), *location, *descriptor, policy, r is Ok),
{
    match location {
        Some(loc) => {
            match find_key(&g.subservers, loc) {
                Some(j) => {
                    match policy {
                        OverwritePolicy::Error => Err(RegistryError::AlreadyExists),
                        OverwritePolicy::Ignore => Ok(()),
                        OverwritePolicy::Overwrite => {
                            let key = g.subservers[j].0.clone();
                            g.subservers[j] = (key, clone_arc(descriptor));
                            proof {
                                assert(has_key(old(g).subservers@, loc@));
                                assert forall|k: int|
                                    0 <= k < g.subservers@.len() && old(g).subservers@[k].0@ == loc@
                                    implies (#[trigger] g.subservers@[k]).1 == *descriptor by {
                                    assert(k == j);
                                }
                            }
                            Ok(())
                        },
                    }
                },
                None => {
                    g.subservers.push((loc.clone(), clone_arc(descriptor)));
                    Ok(())
                },
            }
        },
        None => {
            let occupied = g.server.is_some();
            if occupied {
                match policy {
                    OverwritePolicy::Error => Err(RegistryError::AlreadyExists),
                    OverwritePolicy::Ignore => Ok(()),
                    OverwritePolicy::Overwrite => {
                        g.server = Some(clone_arc(descriptor));
                        Ok(())
                    },
                }
            } else {
                g.server = Some(clone_arc(descriptor));
                Ok(())
            }
        },
    }
}

/// Does some group of the sequence cover the (host, interface) pair?
pub open spec fn covers<D: BackendDescriptor>(web: Seq<WebServer<D>>, h: Seq<char>, x: ServerInterface) -> bool {
    exists|k: int| 0 <= k < web.len() && has_name((#[trigger] web[k]).host@, h) && web[k].interface@.contains(x)
}

/// Does some work pair still carry the (host, interface) pair?
pub open spec fn pair_covers(pairs: Seq<(Vec<String>, Vec<ServerInterface>)>, h: Seq<char>, x: ServerInterface) -> bool {
    exists|k: int| 0 <= k < pairs.len() && has_name((#[trigger] pairs[k]).0@, h) && pairs[k].1@.contains(x)
}

/// Every group of the sequence is well formed.
pub open spec fn groups_wf<D: BackendDescriptor>(web: Seq<WebServer<D>>) -> bool {
    forall|k: int| 0 <= k < web.len() ==> (#[trigger] web[k]).wf()
}

/// Every work pair still holds at least one host and one interface.
pub open spec fn pairs_wf(pairs: Seq<(Vec<String>, Vec<ServerInterface>)>) -> bool {
    forall|k: int| 0 <= k < pairs.len() ==> (#[trigger] pairs[k]).0@.len() > 0
        && (#[trigger] pairs[k]).1@.len() > 0
}

/// Powers of three; the weight a work pair's interface count contributes to
/// the worklist's termination measure.
pub open spec fn pow3(n: nat) -> nat
    decreases n,
{
    if n == 0 {
        1
    } else {
        3 * pow3((n - 1) as nat)
    }
}

proof fn lemma_pow3_pos(n: nat)
    ensures
        pow3(n) >= 1,
    decreases n,
{
    if n > 0 {
        lemma_pow3_pos((n - 1) as nat);
    }
}

proof fn lemma_pow3_mono(a: nat, b: nat)
    requires
        a <= b,
    ensures
        pow3(a) <= pow3(b),
    decreases b,
{
    if a < b && b > 0 {
        lemma_pow3_mono(a, (b - 1) as nat);
        lemma_pow3_pos((b - 1) as nat);
    }
}

/// The termination measure of the worklist: pairs with fewer interfaces
/// weigh less, so spawning single-host remainders shrinks the total.
pub open spec fn pairs_measure(pairs: Seq<(Vec<String>, Vec<ServerInterface>)>) -> nat
    decreases pairs.len(),
{
    if pairs.len() == 0 {
        0
    } else {
        pairs[0].0@.len() * pow3(pairs[0].1@.len()) + pairs_measure(pairs.drop_first())
    }
}

proof fn lemma_pairs_measure_add(a: Seq<(Vec<String>, Vec<ServerInterface>)>, b: Seq<(Vec<String>, Vec<ServerInterface>)>)
    ensures
        pairs_measure(a + b) == pairs_measure(a) + pairs_measure(b),
    decreases a.len(),
{
    if a.len() == 0 {
        assert(a + b =~= b);
    } else {
        assert((a + b).drop_first() =~= a.drop_first() + b);
        lemma_pairs_measure_add(a.drop_first(), b);
    }
}

proof fn lemma_pairs_measure_push(a: Seq<(Vec<String>, Vec<ServerInterface>)>, p: (Vec<String>, Vec<ServerInterface>))
    ensures
        pairs_measure(a.push(p)) == pairs_measure(a) + p.0@.len() * pow3(p.1@.len()),
{
    assert(a.push(p) =~= a + seq![p]);
    lemma_pairs_measure_add(a, seq![p]);
    assert(seq![p].len() == 1);
    assert(seq![p][0] == p);
    assert(seq![p].drop_first() =~= Seq::<(Vec<String>, Vec<ServerInterface>)>::empty());
    assert(pairs_measure(seq![p].drop_first()) == 0);
    assert(pairs_measure(seq![p]) == p.0@.len() * pow3(p.1@.len()));
}

/// Subtraction clamped at zero; the host loop's remaining-work measure.
pub open spec fn sat_sub(a: nat, b: nat) -> nat {
    if a >= b {
        (a - b) as nat
    } else {
        0
    }
}

proof fn lemma_groups_wf_remove<D: BackendDescriptor>(web: Seq<WebServer<D>>, i: int)
    requires
        groups_wf(web),
        0 <= i < web.len(),
    ensures
        groups_wf(web.remove(i)),
{
    assert forall|k: int| 0 <= k < web.remove(i).len() implies (#[trigger] web.remove(i)[k]).wf() by {
        if k < i {
            assert(web.remove(i)[k] == web[k]);
        } else {
            assert(web.remove(i)[k] == web[k + 1]);
        }
    }
}

proof fn lemma_groups_wf_insert<D: BackendDescriptor>(web: Seq<WebServer<D>>, i: int, g: WebServer<D>)
    requires
        groups_wf(web),
        g.wf(),
        0 <= i <= web.len(),
    ensures
        groups_wf(web.insert(i, g)),
{
    assert forall|k: int| 0 <= k < web.insert(i, g).len() implies (#[trigger] web.insert(i, g)[k]).wf() by {
        if k < i {
            assert(web.insert(i, g)[k] == web[k]);
        } else if k == i {
            assert(web.insert(i, g)[k] == g);
        } else {
            assert(web.insert(i, g)[k] == web[k - 1]);
        }
    }
}

proof fn lemma_groups_wf_add<D: BackendDescriptor>(a: Seq<WebServer<D>>, b: Seq<WebServer<D>>)
    requires
        groups_wf(a),
        groups_wf(b),
    ensures
        groups_wf(a + b),
{
    assert forall|k: int| 0 <= k < (a + b).len() implies (#[trigger] (a + b)[k]).wf() by {
        if k < a.len() {
            assert((a + b)[k] == a[k]);
        } else {
            assert((a + b)[k] == b[k - a.len()]);
        }
    }
}

proof fn lemma_groups_wf_push<D: BackendDescriptor>(web: Seq<WebServer<D>>, g: WebServer<D>)
    requires
        groups_wf(web),
        g.wf(),
    ensures
        groups_wf(web.push(g)),
{
    assert forall|k: int| 0 <= k < web.push(g).len() implies (#[trigger] web.push(g)[k]).wf() by {
        if k < web.len() {
            assert(web.push(g)[k] == web[k]);
        } else {
            assert(web.push(g)[k] == g);
        }
    }
}

/// The set of host names a host list holds.
pub open spec fn names_set(v: Seq<String>) -> Set<Seq<char>> {
    Set::new(|h: Seq<char>| has_name(v, h))
}

/// The set of host names over a whole group sequence.
pub open spec fn web_hosts<D: BackendDescriptor>(web: Seq<WebServer<D>>) -> Set<Seq<char>> {
    Set::new(|h: Seq<char>| exists|k: int| 0 <= k < web.len() && has_name((#[trigger] web[k]).host@, h))
}

/// The set of interfaces over a whole group sequence.
pub open spec fn web_interfaces<D: BackendDescriptor>(web: Seq<WebServer<D>>) -> Set<ServerInterface> {
    Set::new(|x: ServerInterface| exists|k: int| 0 <= k < web.len() && (#[trigger] web[k]).interface@.contains(x))
}

/// The set of host names over a worklist.
pub open spec fn pairs_hosts(pairs: Seq<(Vec<String>, Vec<ServerInterface>)>) -> Set<Seq<char>> {
    Set::new(|h: Seq<char>| exists|k: int| 0 <= k < pairs.len() && has_name((#[trigger] pairs[k]).0@, h))
}

/// The set of interfaces over a worklist.
pub open spec fn pairs_interfaces(pairs: Seq<(Vec<String>, Vec<ServerInterface>)>) -> Set<ServerInterface> {
    Set::new(|x: ServerInterface| exists|k: int| 0 <= k < pairs.len() && (#[trigger] pairs[k]).1@.contains(x))
}

proof fn lemma_names_set_add(a: Seq<String>, b: Seq<String>)
    ensures
        names_set(a + b) =~= names_set(a) + names_set(b),
{
    let c = a + b;
    assert forall|h: Seq<char>| #[trigger] has_name(c, h) implies has_name(a, h) || has_name(b, h) by {
        let k = choose|k: int| 0 <= k < c.len() && (c[k])@ == h;
        if k < a.len() {
            assert(a[k] == c[k]);
        } else {
            assert(b[k - a.len()] == c[k]);
        }
    }
    assert forall|h: Seq<char>| has_name(a, h) || has_name(b, h) implies #[trigger] has_name(c, h) by {
        if has_name(a, h) {
            let k = choose|k: int| 0 <= k < a.len() && (a[k])@ == h;
            assert(c[k] == a[k]);
        } else {
            let k = choose|k: int| 0 <= k < b.len() && (b[k])@ == h;
            assert(c[k + a.len()] == b[k]);
        }
    }
}

proof fn lemma_web_sets_remove<D: BackendDescriptor>(web: Seq<WebServer<D>>, i: int)
    requires
        0 <= i < web.len(),
    ensures
        web_hosts(web) =~= web_hosts(web.remove(i)) + web[i].hosts_set(),
        web_interfaces(web) =~= web_interfaces(web.remove(i)) + web[i].interfaces_set(),
{
    let rest = web.remove(i);
    assert forall|h: Seq<char>| web_hosts(web).contains(h) implies (web_hosts(rest)
        + web[i].hosts_set()).contains(h) by {
        let k = choose|k: int| 0 <= k < web.len() && has_name(web[k].host@, h);
        if k < i {
            assert(rest[k] == web[k]);
        } else if k > i {
            assert(rest[k - 1] == web[k]);
        }
    }
    assert forall|h: Seq<char>| (web_hosts(rest) + web[i].hosts_set()).contains(h)
        implies web_hosts(web).contains(h) by {
        if web_hosts(rest).contains(h) {
            let k = choose|k: int| 0 <= k < rest.len() && has_name(rest[k].host@, h);
            if k < i {
                assert(web[k] == rest[k]);
            } else {
                assert(web[k + 1] == rest[k]);
            }
        }
    }
    assert forall|x: ServerInterface| web_interfaces(web).contains(x) implies (web_interfaces(rest)
        + web[i].interfaces_set()).contains(x) by {
        let k = choose|k: int| 0 <= k < web.len() && web[k].interface@.contains(x);
        if k < i {
            assert(rest[k] == web[k]);
        } else if k > i {
            assert(rest[k - 1] == web[k]);
        }
    }
    assert forall|x: ServerInterface| (web_interfaces(rest) + web[i].interfaces_set()).contains(x)
        implies web_interfaces(web).contains(x) by {
        if web_interfaces(rest).contains(x) {
            let k = choose|k: int| 0 <= k < rest.len() && rest[k].interface@.contains(x);
            if k < i {
                assert(web[k] == rest[k]);
            } else {
                assert(web[k + 1] == rest[k]);
            }
        }
    }
}

proof fn lemma_web_sets_insert<D: BackendDescriptor>(web: Seq<WebServer<D>>, i: int, g: WebServer<D>)
    requires
        0 <= i <= web.len(),
    ensures
        web_hosts(web.insert(i, g)) =~= web_hosts(web) + g.hosts_set(),
        web_interfaces(web.insert(i, g)) =~= web_interfaces(web) + g.interfaces_set(),
{
    let grown = web.insert(i, g);
    web.insert_ensures(i, g);
    assert forall|h: Seq<char>| web_hosts(grown).contains(h) implies (web_hosts(web)
        + g.hosts_set()).contains(h) by {
        let k = choose|k: int| 0 <= k < grown.len() && has_name(grown[k].host@, h);
        if k < i {
            assert(web[k] == grown[k]);
        } else if k > i {
            assert(web[k - 1] == grown[k]);
        }
    }
    assert forall|h: Seq<char>| (web_hosts(web) + g.hosts_set()).contains(h)
        implies web_hosts(grown).contains(h) by {
        if web_hosts(web).contains(h) {
            let k = choose|k: int| 0 <= k < web.len() && has_name(web[k].host@, h);
            if k < i {
                assert(grown[k] == web[k]);
            } else {
                assert(grown[k + 1] == web[k]);
            }
        } else {
            assert(grown[i] == g);
        }
    }
    assert forall|x: ServerInterface| web_interfaces(grown).contains(x) implies (web_interfaces(web)
        + g.interfaces_set()).contains(x) by {
        let k = choose|k: int| 0 <= k < grown.len() && grown[k].interface@.contains(x);
        if k < i {
            assert(web[k] == grown[k]);
        } else if k > i {
            assert(web[k - 1] == grown[k]);
        }
    }
    assert forall|x: ServerInterface| (web_interfaces(web) + g.interfaces_set()).contains(x)
        implies web_interfaces(grown).contains(x) by {
        if web_interfaces(web).contains(x) {
            let k = choose|k: int| 0 <= k < web.len() && web[k].interface@.contains(x);
            if k < i {
                assert(grown[k] == web[k]);
            } else {
                assert(grown[k + 1] == web[k]);
            }
        } else {
            assert(grown[i] == g);
        }
    }
}

proof fn lemma_web_sets_push<D: BackendDescriptor>(web: Seq<WebServer<D>>, g: WebServer<D>)
    ensures
        web_hosts(web.push(g)) =~= web_hosts(web) + g.hosts_set(),
        web_interfaces(web.push(g)) =~= web_interfaces(web) + g.interfaces_set(),
{
    assert(web.push(g) =~= web.insert(web.len() as int, g));
    lemma_web_sets_insert(web, web.len() as int, g);
}

proof fn lemma_web_sets_add<D: BackendDescriptor>(a: Seq<WebServer<D>>, b: Seq<WebServer<D>>)
    ensures
        web_hosts(a + b) =~= web_hosts(a) + web_hosts(b),
        web_interfaces(a + b) =~= web_interfaces(a) + web_interfaces(b),
{
    let c = a + b;
    assert forall|h: Seq<char>| web_hosts(c).contains(h) implies (web_hosts(a)
        + web_hosts(b)).contains(h) by {
        let k = choose|k: int| 0 <= k < c.len() && has_name(c[k].host@, h);
        if k < a.len() {
            assert(a[k] == c[k]);
        } else {
            assert(b[k - a.len()] == c[k]);
        }
    }
    assert forall|h: Seq<char>| (web_hosts(a) + web_hosts(b)).contains(h)
        implies web_hosts(c).contains(h) by {
        if web_hosts(a).contains(h) {
            let k = choose|k: int| 0 <= k < a.len() && has_name(a[k].host@, h);
            assert(c[k] == a[k]);
        } else {
            let k = choose|k: int| 0 <= k < b.len() && has_name(b[k].host@, h);
            assert(c[k + a.len()] == b[k]);
        }
    }
    assert forall|x: ServerInterface| web_interfaces(c).contains(x) implies (web_interfaces(a)
        + web_interfaces(b)).contains(x) by {
        let k = choose|k: int| 0 <= k < c.len() && c[k].interface@.contains(x);
        if k < a.len() {
            assert(a[k] == c[k]);
        } else {
            assert(b[k - a.len()] == c[k]);
        }
    }
    assert forall|x: ServerInterface| (web_interfaces(a) + web_interfaces(b)).contains(x)
        implies web_interfaces(c).contains(x) by {
        if web_interfaces(a).contains(x) {
            let k = choose|k: int| 0 <= k < a.len() && a[k].interface@.contains(x);
            assert(c[k] == a[k]);
        } else {
            let k = choose|k: int| 0 <= k < b.len() && b[k].interface@.contains(x);
            assert(c[k + a.len()] == b[k]);
        }
    }
}

proof fn lemma_pairs_sets_unfold(pairs: Seq<(Vec<String>, Vec<ServerInterface>)>)
    requires
        pairs.len() > 0,
    ensures
        pairs_hosts(pairs) =~= names_set(pairs[0].0@) + pairs_hosts(pairs.drop_first()),
        pairs_interfaces(pairs) =~= pairs[0].1@.to_set() + pairs_interfaces(pairs.drop_first()),
{
    let rest = pairs.drop_first();
    assert forall|h: Seq<char>| pairs_hosts(pairs).contains(h) implies (names_set(pairs[0].0@)
        + pairs_hosts(rest)).contains(h) by {
        let k = choose|k: int| 0 <= k < pairs.len() && has_name(pairs[k].0@, h);
        if k > 0 {
            assert(rest[k - 1] == pairs[k]);
        }
    }
    assert forall|h: Seq<char>| (names_set(pairs[0].0@) + pairs_hosts(rest)).contains(h)
        implies pairs_hosts(pairs).contains(h) by {
        if pairs_hosts(rest).contains(h) {
            let k = choose|k: int| 0 <= k < rest.len() && has_name(rest[k].0@, h);
            assert(pairs[k + 1] == rest[k]);
        }
    }
    assert forall|x: ServerInterface| pairs_interfaces(pairs).contains(x) implies (pairs[0].1@.to_set()
        + pairs_interfaces(rest)).contains(x) by {
        let k = choose|k: int| 0 <= k < pairs.len() && pairs[k].1@.contains(x);
        if k > 0 {
            assert(rest[k - 1] == pairs[k]);
        }
    }
    assert forall|x: ServerInterface| (pairs[0].1@.to_set() + pairs_interfaces(rest)).contains(x)
        implies pairs_interfaces(pairs).contains(x) by {
        if pairs_interfaces(rest).contains(x) {
            let k = choose|k: int| 0 <= k < rest.len() && rest[k].1@.contains(x);
            assert(pairs[k + 1] == rest[k]);
        }
    }
}

proof fn lemma_pairs_sets_push(pairs: Seq<(Vec<String>, Vec<ServerInterface>)>, p: (Vec<String>, Vec<ServerInterface>))
    ensures
        pairs_hosts(pairs.push(p)) =~= pairs_hosts(pairs) + names_set(p.0@),
        pairs_interfaces(pairs.push(p)) =~= pairs_interfaces(pairs) + p.1@.to_set(),
{
    let grown = pairs.push(p);
    assert forall|h: Seq<char>| pairs_hosts(grown).contains(h) implies (pairs_hosts(pairs)
        + names_set(p.0@)).contains(h) by {
        let k = choose|k: int| 0 <= k < grown.len() && has_name(grown[k].0@, h);
        if k < pairs.len() {
            assert(pairs[k] == grown[k]);
        } else {
            assert(grown[k] == p);
        }
    }
    assert forall|h: Seq<char>| (pairs_hosts(pairs) + names_set(p.0@)).contains(h)
        implies pairs_hosts(grown).contains(h) by {
        if pairs_hosts(pairs).contains(h) {
            let k = choose|k: int| 0 <= k < pairs.len() && has_name(pairs[k].0@, h);
            assert(grown[k] == pairs[k]);
        } else {
            assert(grown[pairs.len() as int] == p);
        }
    }
    assert forall|x: ServerInterface| pairs_interfaces(grown).contains(x) implies (pairs_interfaces(pairs)
        + p.1@.to_set()).contains(x) by {
        let k = choose|k: int| 0 <= k < grown.len() && grown[k].1@.contains(x);
        if k < pairs.len() {
            assert(pairs[k] == grown[k]);
        } else {
            assert(grown[k] == p);
        }
    }
    assert forall|x: ServerInterface| (pairs_interfaces(pairs) + p.1@.to_set()).contains(x)
        implies pairs_interfaces(grown).contains(x) by {
        if pairs_interfaces(pairs).contains(x) {
            let k = choose|k: int| 0 <= k < pairs.len() && pairs[k].1@.contains(x);
            assert(grown[k] == pairs[k]);
        } else {
            assert(grown[pairs.len() as int] == p);
        }
    }
}

proof fn lemma_pairs_sets_add(a: Seq<(Vec<String>, Vec<ServerInterface>)>, b: Seq<(Vec<String>, Vec<ServerInterface>)>)
    ensures
        pairs_hosts(a + b) =~= pairs_hosts(a) + pairs_hosts(b),
        pairs_interfaces(a + b) =~= pairs_interfaces(a) + pairs_interfaces(b),
{
    let c = a + b;
    assert forall|h: Seq<char>| pairs_hosts(c).contains(h) implies (pairs_hosts(a)
        + pairs_hosts(b)).contains(h) by {
        let k = choose|k: int| 0 <= k < c.len() && has_name(c[k].0@, h);
        if k < a.len() {
            assert(a[k] == c[k]);
        } else {
            assert(b[k - a.len()] == c[k]);
        }
    }
    assert forall|h: Seq<char>| (pairs_hosts(a) + pairs_hosts(b)).contains(h)
        implies pairs_hosts(c).contains(h) by {
        if pairs_hosts(a).contains(h) {
            let k = choose|k: int| 0 <= k < a.len() && has_name(a[k].0@, h);
            assert(c[k] == a[k]);
        } else {
            let k = choose|k: int| 0 <= k < b.len() && has_name(b[k].0@, h);
            assert(c[k + a.len()] == b[k]);
        }
    }
    assert forall|x: ServerInterface| pairs_interfaces(c).contains(x) implies (pairs_interfaces(a)
        + pairs_interfaces(b)).contains(x) by {
        let k = choose|k: int| 0 <= k < c.len() && c[k].1@.contains(x);
        if k < a.len() {
            assert(a[k] == c[k]);
        } else {
            assert(b[k - a.len()] == c[k]);
        }
    }
    assert forall|x: ServerInterface| (pairs_interfaces(a) + pairs_interfaces(b)).contains(x)
        implies pairs_interfaces(c).contains(x) by {
        if pairs_interfaces(a).contains(x) {
            let k = choose|k: int| 0 <= k < a.len() && a[k].1@.contains(x);
            assert(c[k] == a[k]);
        } else {
            let k = choose|k: int| 0 <= k < b.len() && b[k].1@.contains(x);
            assert(c[k + a.len()] == b[k]);
        }
    }
}

/// The one group that a registration creates when nothing overlaps it: the
/// request's hosts and interfaces, with the backend in the requested slot.
pub open spec fn fresh_group_for<D: BackendDescriptor>(g: WebServer<D>, inst: WebServerInstance<D>) -> bool {
    &&& g.host@ == inst.host@
    &&& g.interface@ == inst.interface@
    &&& match inst.location {
        Some(loc) => g.subservers@.len() == 1 && g.subservers@[0].0@ == loc@
            && g.subservers@[0].1 == inst.descriptor && g.server is None,
        None => g.subservers@.len() == 0 && g.server == Some(inst.descriptor),
    }
}

/// An ordered collection of server groups; the sole mutator is the
/// partitioning algorithm of [`Registry::add_server`].
pub struct Registry<D: BackendDescriptor> {
    pub web: Vec<WebServer<D>>,
}

/// What a registry offers: registration, reset, and a read-only view of the
/// current group sequence.
pub trait WebRegistry<D: BackendDescriptor>: Sized {
    /// The registry's structural invariant.
    spec fn inv(&self) -> bool;

    fn add_server(&mut self, inst: &WebServerInstance<D>, policy: OverwritePolicy) -> (r: Result<
        (),
        RegistryError,
    >)
        requires
            old(self).inv(),
        ensures
            final(self).inv(),
    ;

    fn clear(&mut self)
        requires
            old(self).inv(),
        ensures
            final(self).inv(),
    ;

    fn get_web_servers(&self) -> &Vec<WebServer<D>>;
}

impl<D: BackendDescriptor> Registry<D> {
    /// Every retained group is well formed.
    pub open spec fn wf(self) -> bool {
        groups_wf(self.web@)
    }

    /// Attaches `inst.descriptor` at `inst.location` (or the default slot)
    /// for every (host, interface) pair of `inst.host` x `inst.interface`,
    /// creating or splitting groups as needed.
    ///
    /// Hosts are worked left to right, groups oldest first; a work pair
    /// whose interfaces only partially match a group re-enters the worklist
    /// with the unmatched remainder. Under policy `Error` a conflict stops
    /// the walk at once; earlier mutations of the same call stay.
    #[verifier::loop_isolation(false)]
    #[verifier::rlimit(100)]
    pub fn add_server(&mut self, inst: &WebServerInstance<D>, policy: OverwritePolicy) -> (r: Result<
        (),
        RegistryError,
    >)
        requires
            old(self).wf(),
        ensures
            final(self).wf(),
            (r matches Err(e) && e == RegistryError::EmptyHostList) <==> inst.host.len() == 0,
            (r matches Err(e) && e == RegistryError::EmptyInterfaceList) <==> (inst.host.len() > 0
                && inst.interface.len() == 0),
            (inst.host.len() == 0 || inst.interface.len() == 0) ==> *final(self) == *old(self),
            (r matches Err(e) && e == RegistryError::AlreadyExists) ==> policy == OverwritePolicy::Error,
            (policy != OverwritePolicy::Error && inst.host.len() > 0 && inst.interface.len() > 0)
                ==> r is Ok,
            r is Ok ==> inst.host.len() > 0 && inst.interface.len() > 0,
            (old(self).web@.len() == 0 && inst.host.len() > 0 && inst.interface.len() > 0) ==> (
            r is Ok && final(self).web@.len() == 1 && fresh_group_for(final(self).web@[0], *inst)),
            r is Ok ==> web_hosts(final(self).web@) == web_hosts(old(self).web@) + names_set(
                inst.host@,
            ),
            r is Ok ==> web_interfaces(final(self).web@) == web_interfaces(old(self).web@)
                + inst.interface@.to_set(),
            (inst.host.len() == 1 && r is Ok) ==> (forall|x: ServerInterface|
                #[trigger] inst.interface@.contains(x) ==> covers(
                    final(self).web@,
                    (inst.host@[0])@,
                    x,
                )),
            (old(self).web@.len() == 1 && hosts_partial_overlap(old(self).web@[0], inst.host@)
                && ifs_same_set(old(self).web@[0], inst.interface@) && inst.host.len() > 0
                && inst.interface.len() > 0) ==> (host_split_kept(
                old(self).web@[0],
                final(self).web@[0],
                inst.location,
                inst.descriptor,
                policy,
                inst.host@,
                r is Ok,
            ) && (r is Ok ==> final(self).web@.len() == 2 && host_split_rest(
                old(self).web@[0],
                final(self).web@[1],
                inst.host@,
            )) && (r is Err ==> final(self).web@.len() == 1)),
            (old(self).web@.len() == 1 && hosts_same_set(old(self).web@[0], inst.host@)
                && ifs_partial_overlap(old(self).web@[0], inst.interface@) && inst.host.len() > 0
                && inst.interface.len() > 0) ==> (interface_split_kept(
                old(self).web@[0],
                final(self).web@[0],
                inst.location,
                inst.descriptor,
                policy,
                inst.interface@,
                r is Ok,
            ) && (r is Ok ==> final(self).web@.len() == 2 && interface_split_rest(
                old(self).web@[0],
                final(self).web@[1],
                inst.interface@,
            )) && (r is Err ==> final(self).web@.len() == 1)),
            (old(self).web@.len() == 1 && hosts_partial_overlap(old(self).web@[0], inst.host@)
                && ifs_partial_overlap(old(self).web@[0], inst.interface@) && inst.host.len() > 0
                && inst.interface.len() > 0) ==> (final(self).web@[0].host@ == hosts_in(
                old(self).web@[0].host@,
                inst.host@,
            ) && final(self).web@[0].interface@ == inst.interface@ && slot_outcome(
                old(self).web@[0],
                final(self).web@[0],
                inst.location,
                inst.descriptor,
                policy,
                r is Ok,
            ) && (
            r is Ok ==> final(self).web@.len() == 3 && host_split_rest(
                old(self).web@[0],
                final(self).web@[1],
                inst.host@,
            ) && final(self).web@[2].host@ == hosts_in(old(self).web@[0].host@, inst.host@)
                && final(self).web@[2].interface@ == ifs_not_in(
                old(self).web@[0].interface@,
                inst.interface@,
            ) && final(self).web@[2].subservers@ == old(self).web@[0].subservers@
                && final(self).web@[2].server == old(self).web@[0].server) && (r is Err
                ==> final(self).web@.len() == 1)),
            (old(self).web@.len() == 1 && hosts_same_set(old(self).web@[0], inst.host@)
                && ifs_same_set(old(self).web@[0], inst.interface@) && inst.host.len() > 0
                && inst.interface.len() > 0) ==> (final(self).web@.len() == 1
                && final(self).web@[0].host == old(self).web@[0].host
                && final(self).web@[0].interface == old(self).web@[0].interface
                && slot_outcome(
                old(self).web@[0],
                final(self).web@[0],
                inst.location,
                inst.descriptor,
                policy,
                r is Ok,
            )),
    {
        let ghost web0 = self.web@;
        let ghost hsing = inst.host@.len() == 1;
        let ghost hh = (inst.host@[0])@;
        let ghost single0 = self.web@.len() == 1 && hosts_same_set(self.web@[0], inst.host@)
            && ifs_same_set(self.web@[0], inst.interface@) && inst.host@.len() > 0
            && inst.interface@.len() > 0;
        let ghost hsplit0 = self.web@.len() == 1 && hosts_partial_overlap(
            self.web@[0],
            inst.host@,
        ) && ifs_same_set(self.web@[0], inst.interface@) && inst.host@.len() > 0
            && inst.interface@.len() > 0;
        let ghost isplit0 = self.web@.len() == 1 && hosts_same_set(self.web@[0], inst.host@)
            && ifs_partial_overlap(self.web@[0], inst.interface@) && inst.host@.len() > 0
            && inst.interface@.len() > 0;
        let ghost hisplit0 = self.web@.len() == 1 && hosts_partial_overlap(
            self.web@[0],
            inst.host@,
        ) && ifs_partial_overlap(self.web@[0], inst.interface@) && inst.host@.len() > 0
            && inst.interface@.len() > 0;
        if inst.host.len() == 0 {
            return Err(RegistryError::EmptyHostList);
        }
        if inst.interface.len() == 0 {
            return Err(RegistryError::EmptyInterfaceList);
        }
        let mut pairs: Vec<(Vec<String>, Vec<ServerInterface>)> = Vec::new();
        let ch = clone_strings(&inst.host);
        let ci = clone_interfaces(&inst.interface);
        let ghost entry0 = (ch, ci);
        pairs.push((ch, ci));
        proof {
            lemma_pairs_sets_push(Seq::<(Vec<String>, Vec<ServerInterface>)>::empty(), entry0);
            assert(pairs_hosts(Seq::<(Vec<String>, Vec<ServerInterface>)>::empty())
                =~= Set::<Seq<char>>::empty());
            assert(pairs_interfaces(Seq::<(Vec<String>, Vec<ServerInterface>)>::empty())
                =~= Set::<ServerInterface>::empty());
            assert(names_set(entry0.0@) =~= names_set(inst.host@));
            assert(entry0.1@.to_set() =~= inst.interface@.to_set());
            assert(pairs_hosts(pairs@) =~= names_set(inst.host@));
            assert(pairs_interfaces(pairs@) =~= inst.interface@.to_set());
            if inst.host@.len() == 1 {
                assert(pairs@[0] == entry0);
                assert(has_name(entry0.0@, (inst.host@[0])@)) by {
                    assert((entry0.0@[0])@ == (inst.host@[0])@);
                }
                assert forall|x: ServerInterface| #[trigger] inst.interface@.contains(x)
                    implies pair_covers(pairs@, (inst.host@[0])@, x) by {
                    assert(pairs@[0].1@.contains(x));
                }
            }
        }

        while pairs.len() > 0
            invariant
                groups_wf(self.web@),
                pairs_wf(pairs@),
                web0.len() == 0 ==> (self.web@.len() == 0 && pairs@.len() == 1
                    && pairs@[0].0@ == inst.host@ && pairs@[0].1@ == inst.interface@)
                    || (pairs@.len() == 0 && self.web@.len() == 1 && fresh_group_for(
                    self.web@[0],
                    *inst,
                )),
                web_hosts(self.web@) + pairs_hosts(pairs@) =~= web_hosts(web0) + names_set(
                    inst.host@,
                ),
                web_interfaces(self.web@) + pairs_interfaces(pairs@) =~= web_interfaces(web0)
                    + inst.interface@.to_set(),
                hsing ==> (forall|x: ServerInterface| #[trigger] inst.interface@.contains(x)
                    ==> covers(self.web@, hh, x) || pair_covers(pairs@, hh, x)),
                hsing ==> (forall|k: int| 0 <= k < pairs@.len() ==> (#[trigger] pairs@[k]).0@.len()
                    <= 1 && has_name(pairs@[k].0@, hh)),
                single0 ==> (self.web@ == web0 && pairs@.len() == 1 && pairs@[0].0@ == inst.host@
                    && pairs@[0].1@ == inst.interface@) || (pairs@.len() == 0
                    && self.web@.len() == 1 && self.web@[0].host == web0[0].host
                    && self.web@[0].interface == web0[0].interface && slot_outcome(
                    web0[0],
                    self.web@[0],
                    inst.location,
                    inst.descriptor,
                    policy,
                    true,
                )),
                hsplit0 ==> (self.web@ == web0 && pairs@.len() == 1 && pairs@[0].0@
                    == inst.host@ && pairs@[0].1@ == inst.interface@) || (pairs@.len() == 0
                    && self.web@.len() == 2 && host_split_kept(
                    web0[0],
                    self.web@[0],
                    inst.location,
                    inst.descriptor,
                    policy,
                    inst.host@,
                    true,
                ) && host_split_rest(web0[0], self.web@[1], inst.host@)),
                hisplit0 ==> (self.web@ == web0 && pairs@.len() == 1 && pairs@[0].0@
                    == inst.host@ && pairs@[0].1@ == inst.interface@) || (pairs@.len() == 0
                    && self.web@.len() == 3 && self.web@[0].host@ == hosts_in(
                    web0[0].host@,
                    inst.host@,
                ) && self.web@[0].interface@ == inst.interface@ && slot_outcome(
                    web0[0],
                    self.web@[0],
                    inst.location,
                    inst.descriptor,
                    policy,
                    true,
                ) && host_split_rest(web0[0], self.web@[1], inst.host@) && self.web@[2].host@
                    == hosts_in(web0[0].host@, inst.host@) && self.web@[2].interface@ == ifs_not_in(
                    web0[0].interface@,
                    inst.interface@,
                ) && self.web@[2].subservers@ == web0[0].subservers@ && self.web@[2].server
                    == web0[0].server),
                isplit0 ==> (self.web@ == web0 && pairs@.len() == 1 && pairs@[0].0@ == inst.host@
                    && pairs@[0].1@ == inst.interface@) || (pairs@.len() == 0
                    && self.web@.len() == 2 && interface_split_kept(
                    web0[0],
                    self.web@[0],
                    inst.location,
                    inst.descriptor,
                    policy,
                    inst.interface@,
                    true,
                ) && interface_split_rest(web0[0], self.web@[1], inst.interface@)),
            decreases pairs_measure(pairs@),
        {
            let ghost pairs_pre = pairs@;
            let pair = pairs.remove(0);
            let mut hosts = pair.0;
            let interfaces_for_all_hosts = pair.1;
            let mut new_pairs: Vec<(Vec<String>, Vec<ServerInterface>)> = Vec::new();
            let ghost if_len = interfaces_for_all_hosts@.len();
            let ghost h0 = hosts@.len();
            let ghost w1 = pow3((if_len - 1) as nat);

            proof {
                assert(pairs@ =~= pairs_pre.drop_first());
                assert forall|k: int| 0 <= k < pairs@.len() implies (#[trigger] pairs@[k]).0@.len() > 0
                    && pairs@[k].1@.len() > 0 by {
                    assert(pairs@[k] == pairs_pre[k + 1]);
                }
                lemma_pow3_pos((if_len - 1) as nat);
                lemma_pairs_sets_unfold(pairs_pre);
            }
            let ghost web_pair_start = self.web@;
            let ghost u_h = web_hosts(self.web@) + names_set(hosts@);
            let ghost u_i = web_interfaces(self.web@) + interfaces_for_all_hosts@.to_set();
            proof {
                if hsing {
                    assert(hosts@ == pairs_pre[0].0@);
                    assert forall|x: ServerInterface| #[trigger] inst.interface@.contains(x)
                        implies covers(self.web@, hh, x) || pair_covers(pairs@, hh, x) || (
                    has_name(hosts@, hh) && interfaces_for_all_hosts@.contains(x)) by {
                        if pair_covers(pairs_pre, hh, x) {
                            let k = choose|k: int|
                                0 <= k < pairs_pre.len() && has_name(
                                    (#[trigger] pairs_pre[k]).0@,
                                    hh,
                                ) && pairs_pre[k].1@.contains(x);
                            if k > 0 {
                                assert(pairs@[k - 1] == pairs_pre[k]);
                            }
                        }
                    }
                    assert forall|k: int| 0 <= k < hosts@.len() implies (#[trigger] hosts@[k])@
                        == hh by {
                        assert(has_name(pairs_pre[0].0@, hh));
                    }
                }
            }

            let mut i: usize = 0;
            while i < hosts.len()
                invariant
                    groups_wf(self.web@),
                    pairs_wf(new_pairs@),
                    pairs_measure(new_pairs@) + hosts@.len() * w1 <= h0 * w1,
                    web0.len() == 0 ==> self.web@.len() == 0 && new_pairs@.len() == 0
                        && hosts@ == inst.host@,
                    web_hosts(self.web@) + names_set(hosts@) + pairs_hosts(new_pairs@) =~= u_h,
                    web_interfaces(self.web@) + pairs_interfaces(new_pairs@) + (if hosts@.len() > 0 {
                        interfaces_for_all_hosts@.to_set()
                    } else {
                        Set::<ServerInterface>::empty()
                    }) =~= u_i,
                    single0 ==> new_pairs@.len() == 0 && ((i == 0 && self.web@ == web0 && hosts@
                        == inst.host@) || (hosts@.len() == 0 && self.web@.len() == 1
                        && self.web@[0].host == web0[0].host && self.web@[0].interface
                        == web0[0].interface && slot_outcome(
                        web0[0],
                        self.web@[0],
                        inst.location,
                        inst.descriptor,
                        policy,
                        true,
                    ))),
                    hsing ==> (forall|x: ServerInterface| #[trigger] inst.interface@.contains(x)
                        ==> covers(self.web@, hh, x) || pair_covers(pairs@, hh, x) || pair_covers(
                        new_pairs@,
                        hh,
                        x,
                    ) || (has_name(hosts@, hh) && interfaces_for_all_hosts@.contains(x))),
                    hsing ==> (forall|k: int| 0 <= k < hosts@.len() ==> (#[trigger] hosts@[k])@
                        == hh),
                    hsing ==> (forall|k: int| 0 <= k < new_pairs@.len() ==> has_name(
                        (#[trigger] new_pairs@[k]).0@,
                        hh,
                    ) && new_pairs@[k].0@.len() <= 1),
                    hsplit0 ==> new_pairs@.len() == 0 && ((i == 0 && self.web@ == web0 && hosts@
                        == inst.host@) || (hosts@.len() == 0 && self.web@.len() == 2
                        && host_split_kept(
                        web0[0],
                        self.web@[0],
                        inst.location,
                        inst.descriptor,
                        policy,
                        inst.host@,
                        true,
                    ) && host_split_rest(web0[0], self.web@[1], inst.host@))),
                    hisplit0 ==> new_pairs@.len() == 0 && ((i == 0 && self.web@ == web0 && hosts@
                        == inst.host@) || (hosts@.len() == 0 && self.web@.len() == 3
                        && self.web@[0].host@ == hosts_in(web0[0].host@, inst.host@)
                        && self.web@[0].interface@ == inst.interface@ && slot_outcome(
                        web0[0],
                        self.web@[0],
                        inst.location,
                        inst.descriptor,
                        policy,
                        true,
                    ) && host_split_rest(web0[0], self.web@[1], inst.host@) && self.web@[2].host@
                        == hosts_in(web0[0].host@, inst.host@) && self.web@[2].interface@
                        == ifs_not_in(web0[0].interface@, inst.interface@)
                        && self.web@[2].subservers@ == web0[0].subservers@ && self.web@[2].server
                        == web0[0].server)),
                    isplit0 ==> new_pairs@.len() == 0 && ((i == 0 && self.web@ == web0 && hosts@
                        == inst.host@) || (hosts@.len() == 0 && self.web@.len() == 2
                        && interface_split_kept(
                        web0[0],
                        self.web@[0],
                        inst.location,
                        inst.descriptor,
                        policy,
                        inst.interface@,
                        true,
                    ) && interface_split_rest(web0[0], self.web@[1], inst.interface@))),
                decreases sat_sub(hosts@.len(), i as nat),
            {
                let ghost h_iter = hosts@.len();
                let ghost np_iter = new_pairs@;
                let ghost web_iter = self.web@;
                let host = hosts[i].clone();
                let mut interfaces = clone_interfaces(&interfaces_for_all_hosts);
                let mut new_hosts: Vec<WebServer<D>> = Vec::new();
                let ghost gh_u = web_hosts(self.web@) + names_set(hosts@);
                let ghost gi_u = web_interfaces(self.web@);
                proof {
                    assert(has_name(hosts@, host@));
                    assert(u_h.contains(host@));
                    if hsing {
                        assert(host@ == hh);
                    }
                    assert(web_hosts(Seq::<WebServer<D>>::empty()) =~= Set::<Seq<char>>::empty());
                    assert(web_interfaces(Seq::<WebServer<D>>::empty())
                        =~= Set::<ServerInterface>::empty());
                    assert(interfaces@ == interfaces_for_all_hosts@);
                }

                let mut gi: usize = 0;
                while gi < self.web.len()
                    invariant
                        groups_wf(self.web@),
                        groups_wf(new_hosts@),
                        gi <= self.web.len(),
                        interfaces@.len() > 0,
                        interfaces@.len() <= if_len,
                        hosts@.len() <= h_iter,
                        interfaces@.len() < if_len ==> hosts@.len() < h_iter,
                        web0.len() == 0 ==> self.web@.len() == 0 && new_hosts@.len() == 0
                            && interfaces@ == inst.interface@ && hosts@ == inst.host@,
                        web_hosts(self.web@) + web_hosts(new_hosts@) + names_set(hosts@) =~= gh_u,
                        web_interfaces(self.web@) + web_interfaces(new_hosts@) =~= gi_u,
                        forall|x: ServerInterface| #[trigger] interfaces_for_all_hosts@.contains(x)
                            ==> web_interfaces(self.web@).contains(x) || web_interfaces(
                            new_hosts@,
                        ).contains(x) || interfaces@.contains(x),
                        forall|x: ServerInterface| #[trigger] interfaces@.contains(x)
                            ==> interfaces_for_all_hosts@.contains(x),
                        interfaces@.len() == if_len ==> interfaces@ == interfaces_for_all_hosts@,
                        (!has_name(hosts@, host@) && interfaces@.len() == if_len) ==> (forall|
                            x: ServerInterface,
                        |
                            #[trigger] interfaces@.contains(x) ==> web_interfaces(
                                self.web@,
                            ).contains(x) || web_interfaces(new_hosts@).contains(x)),
                        single0 ==> new_hosts@.len() == 0 && interfaces@ == inst.interface@ && ((gi
                            == 0 && self.web@ == web0 && hosts@ == inst.host@) || (gi >= 1
                            && hosts@.len() == 0 && self.web@.len() == 1 && self.web@[0].host
                            == web0[0].host && self.web@[0].interface == web0[0].interface
                            && slot_outcome(
                            web0[0],
                            self.web@[0],
                            inst.location,
                            inst.descriptor,
                            policy,
                            true,
                        ))),
                        hsing ==> (forall|x: ServerInterface| #[trigger] inst.interface@.contains(
                            x,
                        ) ==> covers(self.web@, hh, x) || covers(new_hosts@, hh, x) || pair_covers(
                            pairs@,
                            hh,
                            x,
                        ) || pair_covers(new_pairs@, hh, x) || interfaces@.contains(x)),
                        hsing ==> (forall|k: int| 0 <= k < hosts@.len() ==> (#[trigger] hosts@[k])@
                            == hh),
                        (hsing && !has_name(hosts@, host@) && interfaces@.len() == if_len) ==> (
                        forall|x: ServerInterface|
                            #[trigger] interfaces@.contains(x) ==> covers(self.web@, hh, x)
                                || covers(new_hosts@, hh, x)),
                        hsplit0 ==> interfaces@ == inst.interface@ && ((gi == 0 && self.web@
                            == web0 && hosts@ == inst.host@ && new_hosts@.len() == 0) || (gi >= 1
                            && hosts@.len() == 0 && self.web@.len() == 1 && new_hosts@.len() == 1
                            && host_split_kept(
                            web0[0],
                            self.web@[0],
                            inst.location,
                            inst.descriptor,
                            policy,
                            inst.host@,
                            true,
                        ) && host_split_rest(web0[0], new_hosts@[0], inst.host@))),
                        hisplit0 ==> interfaces@ == inst.interface@ && ((gi == 0 && self.web@
                            == web0 && hosts@ == inst.host@ && new_hosts@.len() == 0) || (gi >= 1
                            && hosts@.len() == 0 && self.web@.len() == 1 && new_hosts@.len() == 2
                            && self.web@[0].host@ == hosts_in(web0[0].host@, inst.host@)
                            && self.web@[0].interface@ == inst.interface@ && slot_outcome(
                            web0[0],
                            self.web@[0],
                            inst.location,
                            inst.descriptor,
                            policy,
                            true,
                        ) && host_split_rest(web0[0], new_hosts@[0], inst.host@)
                            && new_hosts@[1].host@ == hosts_in(web0[0].host@, inst.host@)
                            && new_hosts@[1].interface@ == ifs_not_in(
                            web0[0].interface@,
                            inst.interface@,
                        ) && new_hosts@[1].subservers@ == web0[0].subservers@
                            && new_hosts@[1].server == web0[0].server)),
                        isplit0 ==> interfaces@ == inst.interface@ && ((gi == 0 && self.web@
                            == web0 && hosts@ == inst.host@ && new_hosts@.len() == 0) || (gi >= 1
                            && hosts@.len() == 0 && self.web@.len() == 1 && new_hosts@.len() == 1
                            && interface_split_kept(
                            web0[0],
                            self.web@[0],
                            inst.location,
                            inst.descriptor,
                            policy,
                            inst.interface@,
                            true,
                        ) && interface_split_rest(web0[0], new_hosts@[0], inst.interface@))),
                    decreases self.web@.len() - gi,
                {
                    if contains_name(&self.web[gi].host, &host) {
                        let ghost web_pre = self.web@;
                        let ghost hosts_pre = hosts@;
                        let ghost ifs_pre = interfaces@;
                        let ghost nh_pre0 = new_hosts@;
                        let mut g = self.web.remove(gi);
                        let ghost g0 = g;
                        let ghost web_rm = self.web@;
                        proof {
                            lemma_groups_wf_remove(web_pre, gi as int);
                            lemma_web_sets_remove(web_pre, gi as int);
                        }

                        let (known_hosts, other_hosts) = partition_hosts(&g.host, &mut hosts);
                        let ghost khv = known_hosts@;
                        let ghost ohv = other_hosts@;
                        let (known_interfaces, unknown_interfaces) = split_interfaces(
                            &interfaces,
                            &g.interface,
                        );
                        let ghost kiv = known_interfaces@;
                        let ghost uiv = unknown_interfaces@;
                        let other_interfaces = complement_interfaces(&g.interface, &known_interfaces);
                        let ghost oiv = other_interfaces@;

                        proof {
                            assert(names_set(g0.host@) =~= names_set(khv) + names_set(ohv));
                            assert(names_set(hosts_pre) =~= names_set(hosts@) + names_set(khv));
                            assert(g0.interface@.to_set() =~= kiv.to_set() + oiv.to_set());
                            assert forall|x: ServerInterface| ifs_pre.contains(x) implies
                                kiv.contains(x) || uiv.contains(x) by {}
                            if single0 || hsplit0 || isplit0 || hisplit0 {
                                assert(g0 == web0[0]);
                                assert(hosts_pre == inst.host@);
                                assert(ifs_pre == inst.interface@);
                                // the request's hosts all stand in the group and
                                // both lists are duplicate-free, so the walk
                                // consumes every pair host at once
                                assert(names_distinct(hosts_pre));
                                assert(names_distinct(g0.host@));
                                assert forall|k: int| 0 <= k < hosts_pre.len() implies has_name(
                                    g0.host@,
                                    (#[trigger] hosts_pre[k])@,
                                ) by {}
                                assert(hosts@.len() == 0);
                                assert(has_name(hosts_pre, (hosts_pre[0])@));
                                assert(has_name(khv, (hosts_pre[0])@));
                                assert(khv.len() > 0);
                                // the requested interfaces are all known to the
                                // group, so none are left over
                                assert forall|k: int| 0 <= k < ifs_pre.len() implies
                                    g0.interface@.contains(#[trigger] ifs_pre[k]) by {}
                                assert(kiv == ifs_pre && uiv.len() == 0);
                            }
                            if single0 || isplit0 {
                                // every group host is requested: nothing splits off
                                assert forall|j: int| 0 <= j < g0.host@.len() implies has_name(
                                    hosts_pre,
                                    (#[trigger] g0.host@[j])@,
                                ) by {}
                                if ohv.len() > 0 {
                                    assert(has_name(ohv, (ohv[0])@));
                                }
                                assert(ohv.len() == 0);
                            }
                            if single0 || hsplit0 {
                                // every group interface is requested: no
                                // interface split
                                assert forall|k: int| 0 <= k < g0.interface@.len() implies
                                    kiv.contains(#[trigger] g0.interface@[k]) by {
                                    assert(inst.interface@.contains(g0.interface@[k]));
                                }
                                assert(oiv.len() == 0);
                            }
                            if hsplit0 || hisplit0 {
                                let jw = choose|j: int|
                                    0 <= j < web0[0].host@.len() && !has_name(
                                        inst.host@,
                                        (#[trigger] web0[0].host@[j])@,
                                    );
                                assert(has_name(g0.host@, (g0.host@[jw])@));
                                assert(has_name(ohv, (g0.host@[jw])@));
                                assert(ohv.len() > 0);
                            }
                            if isplit0 || hisplit0 {
                                let jw = choose|j: int|
                                    0 <= j < web0[0].interface@.len() && !inst.interface@.contains(
                                        #[trigger] web0[0].interface@[j],
                                    );
                                assert(g0.interface@.contains(g0.interface@[jw]));
                                assert(!kiv.contains(g0.interface@[jw]));
                                assert(oiv.contains(g0.interface@[jw]));
                                assert(oiv.len() > 0);
                            }
                        }

                        if known_hosts.len() == 0 || known_interfaces.len() == 0 {
                            // not actually relevant to this step: restore the
                            // consumed hosts and move to the next group
                            let mut kh = known_hosts;
                            let ghost hosts_mid = hosts@;
                            hosts.append(&mut kh);
                            proof {
                                lemma_groups_wf_insert(self.web@, gi as int, g);
                                lemma_web_sets_insert(self.web@, gi as int, g);
                                lemma_names_set_add(hosts_mid, khv);
                                assert(hosts@.len() == hosts_pre.len());
                                assert(hosts@ == hosts_mid + khv);
                                assert(names_set(hosts@) =~= names_set(hosts_pre));
                            }
                            self.web.insert(gi, g);
                            proof {
                                assert(web_hosts(self.web@) =~= web_hosts(web_pre));
                                assert(web_interfaces(self.web@) =~= web_interfaces(web_pre));
                                if hsing {
                                    assert(self.web@ =~= web_pre);
                                    assert forall|k: int| 0 <= k < hosts@.len() implies (
                                    #[trigger] hosts@[k])@ == hh by {
                                        assert(has_name(hosts@, (hosts@[k])@));
                                        assert(names_set(hosts@).contains((hosts@[k])@));
                                        assert(names_set(hosts_pre).contains((hosts@[k])@));
                                        assert(has_name(hosts_pre, (hosts@[k])@));
                                        let w = choose|w: int|
                                            0 <= w < hosts_pre.len() && (hosts_pre[w])@ == (
                                            hosts@[k])@;
                                    }
                                    if !has_name(hosts@, host@) {
                                        assert(!has_name(hosts_pre, host@)) by {
                                            if has_name(hosts_pre, host@) {
                                                assert(names_set(hosts_pre).contains(host@));
                                                assert(names_set(hosts@).contains(host@));
                                            }
                                        }
                                        if interfaces@.len() == if_len {
                                            assert forall|x: ServerInterface|
                                                #[trigger] interfaces@.contains(x) implies covers(
                                                self.web@,
                                                hh,
                                                x,
                                            ) || covers(new_hosts@, hh, x) by {
                                                assert(covers(web_pre, hh, x) || covers(
                                                    new_hosts@,
                                                    hh,
                                                    x,
                                                ));
                                                assert(self.web@ == web_pre);
                                            }
                                        }
                                    }
                                }
                                assert forall|x: ServerInterface|
                                    !has_name(hosts@, host@) && interfaces@.len() == if_len
                                        && #[trigger] interfaces@.contains(x) implies web_interfaces(
                                    self.web@,
                                ).contains(x) || web_interfaces(new_hosts@).contains(x) by {
                                    assert(names_set(hosts_pre).contains(host@) ==> names_set(
                                        hosts@,
                                    ).contains(host@));
                                    assert(!has_name(hosts_pre, host@));
                                    assert(web_interfaces(web_pre).contains(x) || web_interfaces(
                                        new_hosts@,
                                    ).contains(x));
                                }
                            }
                            gi = gi + 1;
                            continue;
                        }

                        if other_hosts.len() > 0 {
                            let mut split = g.clone();
                            split.host = other_hosts;
                            let ghost nh_pre = new_hosts@;
                            let ghost sp = split;
                            new_hosts.push(split);
                            proof {
                                lemma_groups_wf_push(nh_pre, sp);
                                lemma_web_sets_push(nh_pre, sp);
                                assert(sp.hosts_set() =~= names_set(ohv));
                                assert(sp.interfaces_set() =~= g0.interface@.to_set());
                                assert(new_hosts@[nh_pre.len() as int] == sp);
                                assert(sp.host@ == ohv);
                                assert(sp.interface@ == g0.interface@);
                            }
                            g.host = known_hosts;
                        }
                        let ghost nh_mid = new_hosts@;
                        let ghost g_mid = g;

                        if other_interfaces.len() > 0 {
                            let mut split = g.clone();
                            split.interface = other_interfaces;
                            let ghost nh_pre = new_hosts@;
                            let ghost sp = split;
                            new_hosts.push(split);
                            proof {
                                lemma_groups_wf_push(nh_pre, sp);
                                lemma_web_sets_push(nh_pre, sp);
                                assert(sp.hosts_set() =~= names_set(g_mid.host@));
                                assert(sp.interfaces_set() =~= oiv.to_set());
                                assert(new_hosts@[nh_pre.len() as int] == sp);
                                assert(sp.host@ == g_mid.host@);
                                assert(sp.interface@ == oiv);
                            }
                            g.interface = known_interfaces;
                        }

                        if unknown_interfaces.len() > 0 {
                            interfaces = unknown_interfaces;
                        }

                        let ghost g_fin = g;
                        let res = apply_registration(&mut g, &inst.location, &inst.descriptor, policy);
                        proof {
                            lemma_groups_wf_insert(self.web@, gi as int, g);
                            lemma_web_sets_insert(self.web@, gi as int, g);
                        }
                        self.web.insert(gi, g);
                        proof {
                            // the group's hosts were narrowed to the known part and the
                            // rest cloned out; nothing joined or left the combined sets
                            assert forall|h: Seq<char>| (web_hosts(self.web@) + web_hosts(
                                new_hosts@,
                            ) + names_set(hosts@)).contains(h) implies gh_u.contains(h) by {
                                assert((web_hosts(web_pre) + web_hosts(nh_pre0) + names_set(
                                    hosts_pre,
                                )).contains(h));
                            }
                            assert forall|h: Seq<char>| gh_u.contains(h) implies (web_hosts(
                                self.web@,
                            ) + web_hosts(new_hosts@) + names_set(hosts@)).contains(h) by {
                                assert((web_hosts(web_pre) + web_hosts(nh_pre0) + names_set(
                                    hosts_pre,
                                )).contains(h));
                                if names_set(khv).contains(h) {
                                    assert(names_set(g_fin.host@).contains(h));
                                } else if names_set(ohv).contains(h) {
                                    assert(web_hosts(new_hosts@).contains(h));
                                }
                            }
                            assert(web_hosts(self.web@) + web_hosts(new_hosts@) + names_set(hosts@)
                                =~= gh_u);
                            assert forall|x: ServerInterface| (web_interfaces(self.web@)
                                + web_interfaces(new_hosts@)).contains(x) implies gi_u.contains(x) by {
                                assert((web_interfaces(web_pre) + web_interfaces(nh_pre0)).contains(
                                    x,
                                ));
                            }
                            assert forall|x: ServerInterface| gi_u.contains(x) implies (
                            web_interfaces(self.web@) + web_interfaces(new_hosts@)).contains(x) by {
                                assert((web_interfaces(web_pre) + web_interfaces(nh_pre0)).contains(
                                    x,
                                ));
                                if kiv.to_set().contains(x) {
                                    assert(g_fin.interface@.to_set().contains(x));
                                } else if oiv.to_set().contains(x) {
                                    assert(web_interfaces(new_hosts@).contains(x));
                                }
                            }
                            assert(web_interfaces(self.web@) + web_interfaces(new_hosts@) =~= gi_u);
                            assert forall|x: ServerInterface| #[trigger] interfaces_for_all_hosts@.contains(
                                x,
                            ) implies web_interfaces(self.web@).contains(x) || web_interfaces(
                                new_hosts@,
                            ).contains(x) || interfaces@.contains(x) by {
                                if ifs_pre.contains(x) {
                                    if kiv.contains(x) {
                                        assert(g_fin.interface@.to_set().contains(x));
                                        assert(web_interfaces(self.web@).contains(x));
                                    } else {
                                        assert(uiv.contains(x));
                                    }
                                } else {
                                    assert(web_interfaces(web_pre).contains(x) || web_interfaces(
                                        nh_pre0,
                                    ).contains(x));
                                    assert(gi_u.contains(x));
                                }
                            }
                            if uiv.len() == 0 {
                                assert forall|x: ServerInterface| #[trigger] interfaces@.contains(x)
                                    implies web_interfaces(self.web@).contains(x) || web_interfaces(
                                    new_hosts@,
                                ).contains(x) by {
                                    assert(kiv.contains(x));
                                    assert(g_fin.interface@.to_set().contains(x));
                                }
                            }
                            if hsing {
                                // the single requested host stays in the
                                // narrowed group, so matched interfaces are
                                // covered with it and prior coverage survives
                                assert(khv.len() > 0);
                                assert(has_name(khv, (khv[0])@));
                                assert(has_name(hosts_pre, (khv[0])@));
                                assert((khv[0])@ == hh);
                                assert(has_name(khv, hh));
                                assert(has_name(g.host@, hh)) by {
                                    if ohv.len() > 0 {
                                        assert(g.host@ == khv);
                                    } else {
                                        assert(g.host@ == g0.host@);
                                        assert(has_name(g0.host@, host@));
                                    }
                                }
                                assert(has_name(g_mid.host@, hh)) by {
                                    if ohv.len() > 0 {
                                        assert(g_mid.host@ == khv);
                                    } else {
                                        assert(g_mid.host@ == g0.host@);
                                        assert(has_name(g0.host@, host@));
                                    }
                                }
                                assert(self.web@[gi as int] == g);
                                assert forall|x: ServerInterface|
                                    covers(nh_pre0, hh, x) implies covers(new_hosts@, hh, x) by {
                                    let k = choose|k: int|
                                        0 <= k < nh_pre0.len() && has_name(
                                            (#[trigger] nh_pre0[k]).host@,
                                            hh,
                                        ) && nh_pre0[k].interface@.contains(x);
                                    assert(new_hosts@[k] == nh_pre0[k]);
                                }
                                assert forall|x: ServerInterface|
                                    covers(web_pre, hh, x) implies covers(self.web@, hh, x)
                                        || covers(new_hosts@, hh, x) by {
                                    let k = choose|k: int|
                                        0 <= k < web_pre.len() && has_name(
                                            (#[trigger] web_pre[k]).host@,
                                            hh,
                                        ) && web_pre[k].interface@.contains(x);
                                    if k < gi {
                                        assert(web_rm[k] == web_pre[k]);
                                        assert(self.web@[k] == web_rm[k]);
                                    } else if k > gi {
                                        assert(web_rm[k - 1] == web_pre[k]);
                                        assert(self.web@[k] == web_rm[k - 1]);
                                    } else {
                                        assert(has_name(khv, hh) || has_name(ohv, hh));
                                        assert(kiv.to_set().contains(x) || oiv.to_set().contains(
                                            x,
                                        ));
                                        if has_name(ohv, hh) {
                                            assert(ohv.len() > 0);
                                            assert(new_hosts@[nh_pre0.len() as int].host@ == ohv);
                                            assert(new_hosts@[nh_pre0.len() as int].interface@
                                                == g0.interface@);
                                        } else if oiv.to_set().contains(x) && !kiv.to_set().contains(
                                            x,
                                        ) {
                                            assert(oiv.len() > 0);
                                            assert(new_hosts@[nh_mid.len() as int].host@
                                                == g_mid.host@);
                                            assert(new_hosts@[nh_mid.len() as int].interface@
                                                == oiv);
                                        } else {
                                            assert(kiv.to_set().contains(x));
                                            assert(g.interface@.contains(x)) by {
                                                if oiv.len() > 0 {
                                                    assert(g.interface@ == kiv);
                                                } else {
                                                    assert(g.interface@ == g0.interface@);
                                                }
                                            }
                                        }
                                    }
                                }
                                assert forall|x: ServerInterface|
                                    ifs_pre.contains(x) implies covers(self.web@, hh, x) || covers(
                                    new_hosts@,
                                    hh,
                                    x,
                                ) || interfaces@.contains(x) by {
                                    if kiv.contains(x) {
                                        assert(g.interface@.contains(x)) by {
                                            if oiv.len() > 0 {
                                                assert(g.interface@ == kiv);
                                            } else {
                                                assert(g0.interface@.contains(x));
                                            }
                                        }
                                    } else {
                                        assert(uiv.contains(x));
                                    }
                                }
                                assert forall|k: int| 0 <= k < hosts@.len() implies (
                                #[trigger] hosts@[k])@ == hh by {
                                    assert(has_name(hosts@, (hosts@[k])@));
                                    assert(has_name(hosts_pre, (hosts@[k])@));
                                    let w = choose|w: int|
                                        0 <= w < hosts_pre.len() && (hosts_pre[w])@ == (
                                        hosts@[k])@;
                                }
                            }
                            if single0 {
                                assert(g_fin == g0);
                                assert(self.web@ =~= web_rm.insert(0, g));
                                assert(self.web@.len() == 1);
                                assert(self.web@[0] == g);
                                assert(slot_outcome(
                                    web0[0],
                                    self.web@[0],
                                    inst.location,
                                    inst.descriptor,
                                    policy,
                                    res is Ok,
                                ));
                            }
                            if hsplit0 {
                                assert(self.web@ =~= web_rm.insert(0, g));
                                assert(self.web@.len() == 1);
                                assert(self.web@[0] == g);
                                assert(new_hosts@.len() == 1);
                                assert(khv == hosts_in(g0.host@, inst.host@));
                                assert(ohv == hosts_not_in(g0.host@, inst.host@));
                                assert(new_hosts@[0].host@ == ohv);
                                assert(new_hosts@[0].interface@ == g0.interface@);
                                assert(new_hosts@[0].subservers@ == g0.subservers@);
                                assert(new_hosts@[0].server == g0.server);
                                assert(g_fin.host@ == khv);
                                assert(g_fin.interface == g0.interface);
                                assert(slot_outcome(
                                    web0[0],
                                    self.web@[0],
                                    inst.location,
                                    inst.descriptor,
                                    policy,
                                    res is Ok,
                                ));
                                assert(host_split_kept(
                                    web0[0],
                                    self.web@[0],
                                    inst.location,
                                    inst.descriptor,
                                    policy,
                                    inst.host@,
                                    res is Ok,
                                ));
                                assert(host_split_rest(web0[0], new_hosts@[0], inst.host@));
                            }
                            if isplit0 {
                                assert(self.web@ =~= web_rm.insert(0, g));
                                assert(self.web@.len() == 1);
                                assert(self.web@[0] == g);
                                assert(new_hosts@.len() == 1);
                                assert(new_hosts@[0].host@ == g0.host@);
                                assert(oiv == ifs_not_in(g0.interface@, inst.interface@));
                                assert(new_hosts@[0].interface@ == oiv);
                                assert(new_hosts@[0].subservers@ == g0.subservers@);
                                assert(new_hosts@[0].server == g0.server);
                                assert(g_fin.host == g0.host);
                                assert(g_fin.interface@ == kiv);
                                assert(slot_outcome(
                                    web0[0],
                                    self.web@[0],
                                    inst.location,
                                    inst.descriptor,
                                    policy,
                                    res is Ok,
                                ));
                                assert(interface_split_kept(
                                    web0[0],
                                    self.web@[0],
                                    inst.location,
                                    inst.descriptor,
                                    policy,
                                    inst.interface@,
                                    res is Ok,
                                ));
                                assert(interface_split_rest(web0[0], new_hosts@[0], inst.interface@));
                            }
                            if hisplit0 {
                                assert(self.web@ =~= web_rm.insert(0, g));
                                assert(self.web@.len() == 1);
                                assert(self.web@[0] == g);
                                assert(new_hosts@.len() == 2);
                                assert(khv == hosts_in(g0.host@, inst.host@));
                                assert(ohv == hosts_not_in(g0.host@, inst.host@));
                                assert(g_fin.host@ == khv);
                                assert(g_fin.interface@ == kiv);
                                assert(new_hosts@[0].host@ == ohv);
                                assert(new_hosts@[0].interface@ == g0.interface@);
                                assert(new_hosts@[0].subservers@ == g0.subservers@);
                                assert(new_hosts@[0].server == g0.server);
                                assert(g_mid.host@ == khv);
                                assert(new_hosts@[1].host@ == g_mid.host@);
                                assert(oiv == ifs_not_in(g0.interface@, inst.interface@));
                                assert(new_hosts@[1].interface@ == oiv);
                                assert(new_hosts@[1].subservers@ == g0.subservers@);
                                assert(new_hosts@[1].server == g0.server);
                                assert(slot_outcome(
                                    web0[0],
                                    self.web@[0],
                                    inst.location,
                                    inst.descriptor,
                                    policy,
                                    res is Ok,
                                ));
                                assert(host_split_rest(web0[0], new_hosts@[0], inst.host@));
                            }
                        }
                        if let Err(e) = res {
                            // the pending clones of this scan are dropped; the
                            // walk stops with what is already committed
                            return Err(e);
                        }
                    } else {
                        proof {
                            if single0 || hsplit0 || isplit0 || hisplit0 {
                                assert(host == inst.host@[0]);
                                assert(has_name(web0[0].host@, (inst.host@[0])@));
                                assert(has_name(self.web@[gi as int].host@, host@));
                            }
                        }
                    }
                    gi = gi + 1;
                }
                let ghost web_mid = self.web@;
                let ghost nh_fin = new_hosts@;
                proof {
                    lemma_groups_wf_add(web_mid, new_hosts@);
                    lemma_web_sets_add(web_mid, new_hosts@);
                }
                self.web.append(&mut new_hosts);
                proof {
                    if web0.len() == 0 {
                        assert(self.web@ =~= web_mid);
                    }
                    assert(web_hosts(self.web@) =~= web_hosts(web_mid) + web_hosts(nh_fin));
                    assert(web_interfaces(self.web@) =~= web_interfaces(web_mid) + web_interfaces(
                        nh_fin,
                    ));
                    if hsing {
                        assert forall|x: ServerInterface|
                            covers(web_mid, hh, x) || covers(nh_fin, hh, x) implies covers(
                            self.web@,
                            hh,
                            x,
                        ) by {
                            if covers(web_mid, hh, x) {
                                let k = choose|k: int|
                                    0 <= k < web_mid.len() && has_name(
                                        (#[trigger] web_mid[k]).host@,
                                        hh,
                                    ) && web_mid[k].interface@.contains(x);
                                assert(self.web@[k] == web_mid[k]);
                            } else {
                                let k = choose|k: int|
                                    0 <= k < nh_fin.len() && has_name(
                                        (#[trigger] nh_fin[k]).host@,
                                        hh,
                                    ) && nh_fin[k].interface@.contains(x);
                                assert(self.web@[web_mid.len() + k] == nh_fin[k]);
                            }
                        }
                    }
                }

                if interfaces.len() > 0 && interfaces.len() != interfaces_for_all_hosts.len() {
                    let mut single: Vec<String> = Vec::new();
                    single.push(host);
                    let ghost np_pre = new_pairs@;
                    let ghost entry = (single, interfaces);
                    new_pairs.push((single, interfaces));
                    proof {
                        lemma_pairs_measure_push(np_pre, entry);
                        lemma_pow3_mono(entry.1@.len(), (if_len - 1) as nat);
                        lemma_pairs_sets_push(np_pre, entry);
                        assert(entry.0@.len() == 1 && entry.0@[0] == host);
                        assert forall|h: Seq<char>| #[trigger] has_name(entry.0@, h) implies h
                            == host@ by {
                            let j = choose|j: int| 0 <= j < entry.0@.len() && (entry.0@[j])@ == h;
                        }
                        assert(has_name(entry.0@, host@));
                        assert(names_set(entry.0@) =~= Set::<Seq<char>>::empty().insert(host@));
                        assert forall|h: Seq<char>| (web_hosts(self.web@) + names_set(hosts@)
                            + pairs_hosts(new_pairs@)).contains(h) implies u_h.contains(h) by {
                            if h == host@ {
                            } else {
                                assert((web_hosts(web_iter) + names_set(hosts@) + pairs_hosts(
                                    np_pre,
                                )).contains(h) || web_hosts(nh_fin).contains(h) || names_set(
                                    hosts@,
                                ).contains(h) || (web_hosts(web_mid) + web_hosts(nh_fin)
                                    + names_set(hosts@)).contains(h));
                            }
                        }
                        assert forall|h: Seq<char>| u_h.contains(h) implies (web_hosts(self.web@)
                            + names_set(hosts@) + pairs_hosts(new_pairs@)).contains(h) by {
                            assert((web_hosts(web_iter) + names_set(hosts@) + pairs_hosts(
                                np_iter,
                            )).contains(h) || (web_hosts(web_mid) + web_hosts(nh_fin) + names_set(
                                hosts@,
                            )).contains(h));
                        }
                        assert(web_hosts(self.web@) + names_set(hosts@) + pairs_hosts(new_pairs@)
                            =~= u_h);
                        assert forall|x: ServerInterface| (web_interfaces(self.web@)
                            + pairs_interfaces(new_pairs@) + (if hosts@.len() > 0 {
                            interfaces_for_all_hosts@.to_set()
                        } else {
                            Set::<ServerInterface>::empty()
                        })).contains(x) implies u_i.contains(x) by {
                            if pairs_interfaces(np_pre).contains(x) || web_interfaces(
                                web_iter,
                            ).contains(x) {
                            } else {
                                assert(interfaces_for_all_hosts@.to_set().contains(x)
                                    || web_interfaces(nh_fin).contains(x));
                                assert(gi_u.contains(x) || interfaces_for_all_hosts@.contains(x));
                            }
                        }
                        assert forall|x: ServerInterface| u_i.contains(x) implies (web_interfaces(
                            self.web@,
                        ) + pairs_interfaces(new_pairs@) + (if hosts@.len() > 0 {
                            interfaces_for_all_hosts@.to_set()
                        } else {
                            Set::<ServerInterface>::empty()
                        })).contains(x) by {
                            if web_interfaces(web_iter).contains(x) {
                                assert(web_interfaces(web_mid).contains(x) || web_interfaces(
                                    nh_fin,
                                ).contains(x));
                            } else if pairs_interfaces(np_iter).contains(x) {
                            } else {
                                assert(interfaces_for_all_hosts@.contains(x));
                                if hosts@.len() == 0 {
                                    assert(web_interfaces(web_mid).contains(x) || web_interfaces(
                                        nh_fin,
                                    ).contains(x) || interfaces@.contains(x));
                                    if interfaces@.contains(x) {
                                        assert(entry.1@.contains(x));
                                        assert(pairs_interfaces(new_pairs@).contains(x));
                                    }
                                }
                            }
                        }
                        assert(web_interfaces(self.web@) + pairs_interfaces(new_pairs@) + (
                        if hosts@.len() > 0 {
                            interfaces_for_all_hosts@.to_set()
                        } else {
                            Set::<ServerInterface>::empty()
                        }) =~= u_i);
                        assert forall|k: int| 0 <= k < new_pairs@.len() implies (#[trigger] new_pairs@[k]).0@.len() > 0
                            && new_pairs@[k].1@.len() > 0 by {
                            if k < np_pre.len() {
                                assert(new_pairs@[k] == np_pre[k]);
                            } else {
                                assert(new_pairs@[k] == entry);
                            }
                        }
                        assert(pairs_measure(new_pairs@) + hosts@.len() * w1 <= h0 * w1) by (nonlinear_arith)
                            requires
                                pairs_measure(new_pairs@) == pairs_measure(np_pre) + entry.0@.len()
                                    * pow3(entry.1@.len()),
                                entry.0@.len() == 1,
                                pow3(entry.1@.len()) <= w1,
                                hosts@.len() < h_iter,
                                pairs_measure(np_pre) + h_iter * w1 <= h0 * w1,
                        ;
                        if hsing {
                            assert(entry.0@.len() == 1 && (entry.0@[0])@ == hh);
                            assert(has_name(entry.0@, hh));
                            assert(new_pairs@[np_pre.len() as int] == entry);
                            assert forall|x: ServerInterface|
                                pair_covers(np_pre, hh, x) || entry.1@.contains(x) implies
                                pair_covers(new_pairs@, hh, x) by {
                                if pair_covers(np_pre, hh, x) {
                                    let k = choose|k: int|
                                        0 <= k < np_pre.len() && has_name(
                                            (#[trigger] np_pre[k]).0@,
                                            hh,
                                        ) && np_pre[k].1@.contains(x);
                                    assert(new_pairs@[k] == np_pre[k]);
                                }
                            }
                            assert forall|k: int| 0 <= k < new_pairs@.len() implies has_name(
                                (#[trigger] new_pairs@[k]).0@,
                                hh,
                            ) && new_pairs@[k].0@.len() <= 1 by {
                                if k < np_pre.len() {
                                    assert(new_pairs@[k] == np_pre[k]);
                                } else {
                                    assert(new_pairs@[k] == entry);
                                }
                            }
                            assert forall|x: ServerInterface| #[trigger] inst.interface@.contains(
                                x,
                            ) implies covers(self.web@, hh, x) || pair_covers(pairs@, hh, x)
                                || pair_covers(new_pairs@, hh, x) || (has_name(hosts@, hh)
                                && interfaces_for_all_hosts@.contains(x)) by {
                                assert(covers(web_mid, hh, x) || covers(nh_fin, hh, x)
                                    || pair_covers(pairs@, hh, x) || pair_covers(np_pre, hh, x)
                                    || entry.1@.contains(x));
                            }
                        }
                    }
                } else {
                    i = i + 1;
                    proof {
                        assert(pairs_measure(new_pairs@) + hosts@.len() * w1 <= h0 * w1) by (nonlinear_arith)
                            requires
                                pairs_measure(new_pairs@) + h_iter * w1 <= h0 * w1,
                                hosts@.len() <= h_iter,
                        ;
                        assert forall|h: Seq<char>| (web_hosts(self.web@) + names_set(hosts@)
                            + pairs_hosts(new_pairs@)).contains(h) implies u_h.contains(h) by {
                            assert((web_hosts(web_iter) + names_set(hosts@) + pairs_hosts(
                                np_iter,
                            )).contains(h) || (web_hosts(web_mid) + web_hosts(nh_fin) + names_set(
                                hosts@,
                            )).contains(h));
                        }
                        assert forall|h: Seq<char>| u_h.contains(h) implies (web_hosts(self.web@)
                            + names_set(hosts@) + pairs_hosts(new_pairs@)).contains(h) by {
                            assert((web_hosts(web_iter) + names_set(hosts@) + pairs_hosts(
                                np_iter,
                            )).contains(h) || (web_hosts(web_mid) + web_hosts(nh_fin) + names_set(
                                hosts@,
                            )).contains(h));
                        }
                        assert(web_hosts(self.web@) + names_set(hosts@) + pairs_hosts(new_pairs@)
                            =~= u_h);
                        if hosts@.len() == 0 {
                            assert(!has_name(hosts@, host@));
                            assert(interfaces@.len() == if_len);
                            assert(interfaces@ == interfaces_for_all_hosts@);
                            assert forall|x: ServerInterface| interfaces_for_all_hosts@.to_set().contains(
                                x,
                            ) implies web_interfaces(self.web@).contains(x) by {
                                assert(interfaces@.contains(x));
                                assert(web_interfaces(web_mid).contains(x) || web_interfaces(
                                    nh_fin,
                                ).contains(x));
                            }
                        }
                        assert forall|x: ServerInterface| (web_interfaces(self.web@)
                            + pairs_interfaces(new_pairs@) + (if hosts@.len() > 0 {
                            interfaces_for_all_hosts@.to_set()
                        } else {
                            Set::<ServerInterface>::empty()
                        })).contains(x) implies u_i.contains(x) by {
                            if web_interfaces(self.web@).contains(x) {
                                assert(web_interfaces(web_mid).contains(x) || web_interfaces(
                                    nh_fin,
                                ).contains(x));
                                assert(gi_u.contains(x));
                            }
                        }
                        assert forall|x: ServerInterface| u_i.contains(x) implies (web_interfaces(
                            self.web@,
                        ) + pairs_interfaces(new_pairs@) + (if hosts@.len() > 0 {
                            interfaces_for_all_hosts@.to_set()
                        } else {
                            Set::<ServerInterface>::empty()
                        })).contains(x) by {
                            if web_interfaces(web_iter).contains(x) {
                                assert(web_interfaces(web_mid).contains(x) || web_interfaces(
                                    nh_fin,
                                ).contains(x));
                            }
                        }
                        assert(web_interfaces(self.web@) + pairs_interfaces(new_pairs@) + (
                        if hosts@.len() > 0 {
                            interfaces_for_all_hosts@.to_set()
                        } else {
                            Set::<ServerInterface>::empty()
                        }) =~= u_i);
                        if hsing {
                            assert forall|x: ServerInterface| #[trigger] inst.interface@.contains(
                                x,
                            ) implies covers(self.web@, hh, x) || pair_covers(pairs@, hh, x)
                                || pair_covers(new_pairs@, hh, x) || (has_name(hosts@, hh)
                                && interfaces_for_all_hosts@.contains(x)) by {
                                if interfaces@.contains(x) {
                                    if hosts@.len() > 0 {
                                        assert((hosts@[0])@ == hh);
                                        assert(has_name(hosts@, hh));
                                        assert(interfaces_for_all_hosts@.contains(x));
                                    } else {
                                        assert(!has_name(hosts@, host@));
                                        assert(covers(web_mid, hh, x) || covers(nh_fin, hh, x));
                                    }
                                }
                            }
                        }
                    }
                }
            }

            let ghost web_hl = self.web@;
            let ghost hosts_fin = hosts@;
            let ghost np_final = new_pairs@;
            if hosts.len() > 0 {
                let mut server = WebServer {
                    host: hosts,
                    interface: clone_interfaces(&interfaces_for_all_hosts),
                    subservers: Vec::new(),
                    server: None,
                };
                match &inst.location {
                    Some(loc) => {
                        server.subservers.push((loc.clone(), clone_arc(&inst.descriptor)));
                    },
                    None => {
                        server.server = Some(clone_arc(&inst.descriptor));
                    },
                }
                let ghost web_mid2 = self.web@;
                let ghost srv = server;
                self.web.push(server);
                proof {
                    lemma_groups_wf_push(web_mid2, srv);
                    lemma_web_sets_push(web_mid2, srv);
                    assert(srv.hosts_set() =~= names_set(hosts_fin));
                    assert(srv.interfaces_set() =~= interfaces_for_all_hosts@.to_set());
                    if web0.len() == 0 {
                        assert(srv.host@ == inst.host@);
                        assert(srv.interface@ == inst.interface@);
                        assert(fresh_group_for(srv, *inst));
                        assert(self.web@ =~= seq![srv]);
                    }
                }
            } else {
                proof {
                    assert(names_set(hosts_fin) =~= Set::<Seq<char>>::empty());
                }
            }
            proof {
                assert(web_hosts(self.web@) + pairs_hosts(np_final) =~= u_h);
                assert(web_interfaces(self.web@) + pairs_interfaces(np_final) =~= u_i);
                if hsing {
                    assert forall|x: ServerInterface| #[trigger] inst.interface@.contains(x)
                        implies covers(self.web@, hh, x) || pair_covers(pairs@, hh, x)
                            || pair_covers(np_final, hh, x) by {
                        if covers(web_hl, hh, x) {
                            let k = choose|k: int|
                                0 <= k < web_hl.len() && has_name(
                                    (#[trigger] web_hl[k]).host@,
                                    hh,
                                ) && web_hl[k].interface@.contains(x);
                            assert(self.web@[k] == web_hl[k]);
                        } else if hosts_fin.len() > 0 && interfaces_for_all_hosts@.contains(x) {
                            assert((hosts_fin[0])@ == hh);
                            assert(self.web@.last().host@ == hosts_fin);
                            assert(has_name(self.web@.last().host@, hh));
                            assert(self.web@.last().interface@ == interfaces_for_all_hosts@);
                            assert(covers(self.web@, hh, x));
                        }
                    }
                }
            }

            let ghost pairs_mid = pairs@;
            pairs.append(&mut new_pairs);
            proof {
                lemma_pairs_measure_add(pairs_mid, np_final);
                assert(pairs_measure(np_final) <= h0 * w1);
                assert(pow3(if_len) == 3 * w1);
                assert(h0 * pow3(if_len) == pairs_pre[0].0@.len() * pow3(pairs_pre[0].1@.len()));
                assert(pairs_measure(np_final) < h0 * pow3(if_len)) by (nonlinear_arith)
                    requires
                        pairs_measure(np_final) <= h0 * w1,
                        w1 >= 1,
                        h0 >= 1,
                        pow3(if_len) == 3 * w1,
                ;
                assert(pairs_measure(pairs_pre) == pairs_pre[0].0@.len() * pow3(pairs_pre[0].1@.len())
                    + pairs_measure(pairs_pre.drop_first()));
                assert forall|k: int| 0 <= k < pairs@.len() implies (#[trigger] pairs@[k]).0@.len() > 0
                    && pairs@[k].1@.len() > 0 by {
                    if k < pairs_mid.len() {
                        assert(pairs@[k] == pairs_mid[k]);
                    } else {
                        assert(pairs@[k] == np_final[k - pairs_mid.len()]);
                    }
                }
                lemma_pairs_sets_add(pairs_mid, np_final);
                assert(pairs_hosts(pairs@) =~= pairs_hosts(pairs_mid) + pairs_hosts(np_final));
                assert(pairs_interfaces(pairs@) =~= pairs_interfaces(pairs_mid) + pairs_interfaces(
                    np_final,
                ));
                assert forall|h: Seq<char>| (web_hosts(self.web@) + pairs_hosts(pairs@)).contains(h)
                    implies (web_hosts(web0) + names_set(inst.host@)).contains(h) by {
                    assert((web_hosts(self.web@) + pairs_hosts(np_final)).contains(h)
                        || pairs_hosts(pairs_mid).contains(h));
                    assert(u_h.contains(h) || pairs_hosts(pairs_pre).contains(h));
                    assert((web_hosts(web_pair_start) + pairs_hosts(pairs_pre)).contains(h));
                }
                assert forall|h: Seq<char>| (web_hosts(web0) + names_set(inst.host@)).contains(h)
                    implies (web_hosts(self.web@) + pairs_hosts(pairs@)).contains(h) by {
                    assert((web_hosts(web_pair_start) + pairs_hosts(pairs_pre)).contains(h));
                    if pairs_hosts(pairs_pre).contains(h) {
                        assert(names_set(pairs_pre[0].0@).contains(h) || pairs_hosts(
                            pairs_mid,
                        ).contains(h));
                        if names_set(pairs_pre[0].0@).contains(h) {
                            assert(u_h.contains(h));
                            assert((web_hosts(self.web@) + pairs_hosts(np_final)).contains(h));
                        }
                    } else {
                        assert(u_h.contains(h));
                        assert((web_hosts(self.web@) + pairs_hosts(np_final)).contains(h));
                    }
                }
                assert(web_hosts(self.web@) + pairs_hosts(pairs@) =~= web_hosts(web0) + names_set(
                    inst.host@,
                ));
                assert forall|x: ServerInterface| (web_interfaces(self.web@) + pairs_interfaces(
                    pairs@,
                )).contains(x) implies (web_interfaces(web0) + inst.interface@.to_set()).contains(
                    x,
                ) by {
                    assert((web_interfaces(self.web@) + pairs_interfaces(np_final)).contains(x)
                        || pairs_interfaces(pairs_mid).contains(x));
                    assert(u_i.contains(x) || pairs_interfaces(pairs_pre).contains(x));
                    assert((web_interfaces(web_pair_start) + pairs_interfaces(pairs_pre)).contains(
                        x,
                    ));
                }
                assert forall|x: ServerInterface| (web_interfaces(web0)
                    + inst.interface@.to_set()).contains(x) implies (web_interfaces(self.web@)
                    + pairs_interfaces(pairs@)).contains(x) by {
                    assert((web_interfaces(web_pair_start) + pairs_interfaces(pairs_pre)).contains(
                        x,
                    ));
                    if pairs_interfaces(pairs_pre).contains(x) {
                        assert(pairs_pre[0].1@.to_set().contains(x) || pairs_interfaces(
                            pairs_mid,
                        ).contains(x));
                        if pairs_pre[0].1@.to_set().contains(x) {
                            assert(u_i.contains(x));
                            assert((web_interfaces(self.web@) + pairs_interfaces(
                                np_final,
                            )).contains(x));
                        }
                    } else {
                        assert(u_i.contains(x));
                        assert((web_interfaces(self.web@) + pairs_interfaces(np_final)).contains(
                            x,
                        ));
                    }
                }
                assert(web_interfaces(self.web@) + pairs_interfaces(pairs@) =~= web_interfaces(web0)
                    + inst.interface@.to_set());
                if hsing {
                    assert forall|x: ServerInterface|
                        pair_covers(pairs_mid, hh, x) || pair_covers(np_final, hh, x) implies
                        pair_covers(pairs@, hh, x) by {
                        if pair_covers(pairs_mid, hh, x) {
                            let k = choose|k: int|
                                0 <= k < pairs_mid.len() && has_name(
                                    (#[trigger] pairs_mid[k]).0@,
                                    hh,
                                ) && pairs_mid[k].1@.contains(x);
                            assert(pairs@[k] == pairs_mid[k]);
                        } else {
                            let k = choose|k: int|
                                0 <= k < np_final.len() && has_name(
                                    (#[trigger] np_final[k]).0@,
                                    hh,
                                ) && np_final[k].1@.contains(x);
                            assert(pairs@[pairs_mid.len() + k] == np_final[k]);
                        }
                    }
                    assert forall|k: int| 0 <= k < pairs@.len() implies has_name(
                        (#[trigger] pairs@[k]).0@,
                        hh,
                    ) && pairs@[k].0@.len() <= 1 by {
                        if k < pairs_mid.len() {
                            assert(pairs@[k] == pairs_mid[k]);
                            assert(pairs_mid[k] == pairs_pre[k + 1]);
                        } else {
                            assert(pairs@[k] == np_final[k - pairs_mid.len()]);
                        }
                    }
                }
            }
        }
        proof {
            assert(pairs_hosts(pairs@) =~= Set::<Seq<char>>::empty());
            assert(pairs_interfaces(pairs@) =~= Set::<ServerInterface>::empty());
            assert(web_hosts(self.web@) =~= web_hosts(web0) + names_set(inst.host@));
            assert(web_interfaces(self.web@) =~= web_interfaces(web0) + inst.interface@.to_set());
        }
        Ok(())
    }

    /// Resets the registry to the empty sequence.
    pub fn clear(&mut self)
        ensures
            final(self).web@.len() == 0,
            final(self).wf(),
    {
        self.web.clear();
    }

    /// A read-only view of the current group sequence.
    pub fn get_web_servers(&self) -> (r: &Vec<WebServer<D>>)
        ensures
            *r == self.web,
    {
        &self.web
    }
}

impl<D: BackendDescriptor> Default for Registry<D> {
    /// A fresh registry holds no groups.
    fn default() -> (r: Self)
        ensures
            r.web@.len() == 0,
    {
        Registry { web: Vec::new() }
    }
}

impl<D: BackendDescriptor> WebRegistry<D> for Registry<D> {
    open spec fn inv(&self) -> bool {
        self.wf()
    }

    fn add_server(&mut self, inst: &WebServerInstance<D>, policy: OverwritePolicy) -> Result<
        (),
        RegistryError,
    > {
        Registry::add_server(self, inst, policy)
    }

    fn clear(&mut self) {
        Registry::clear(self)
    }

    fn get_web_servers(&self) -> &Vec<WebServer<D>> {
        Registry::get_web_servers(self)
    }
}

/// The decimal digit character for `n` < 10.
pub open spec fn dec_digit(n: nat) -> char {
    if n == 0 {
        '0'
    } else if n == 1 {
        '1'
    } else if n == 2 {
        '2'
    } else if n == 3 {
        '3'
    } else if n == 4 {
        '4'
    } else if n == 5 {
        '5'
    } else if n == 6 {
        '6'
    } else if n == 7 {
        '7'
    } else if n == 8 {
        '8'
    } else {
        '9'
    }
}

/// The decimal rendering of `n`, most significant digit first.
pub open spec fn dec_str(n: nat) -> Seq<char>
    decreases n,
{
    if n < 10 {
        seq![dec_digit(n)]
    } else {
        dec_str(n / 10).push(dec_digit(n % 10))
    }
}

/// The display name of a protocol attribute.
pub open spec fn attr_str(a: ServerInterfaceAttribute) -> Seq<char> {
    match a {
        ServerInterfaceAttribute::Http => "Http"@,
        ServerInterfaceAttribute::Https => "Https"@,
    }
}

/// The debug text of one interface: its attribute, a colon, its port.
pub open spec fn interface_str(x: ServerInterface) -> Seq<char> {
    attr_str(x.attr) + ":"@ + dec_str(x.port as nat)
}

/// The debug text of an interface list, comma separated.
pub open spec fn interfaces_str(v: Seq<ServerInterface>) -> Seq<char>
    decreases v.len(),
{
    if v.len() == 0 {
        Seq::empty()
    } else if v.len() == 1 {
        interface_str(v[0])
    } else {
        interfaces_str(v.drop_last()) + ", "@ + interface_str(v.last())
    }
}

/// The debug text of a host list: each name quoted, comma separated.
pub open spec fn hosts_str(v: Seq<String>) -> Seq<char>
    decreases v.len(),
{
    if v.len() == 0 {
        Seq::empty()
    } else if v.len() == 1 {
        "\""@ + v[0]@ + "\""@
    } else {
        hosts_str(v.drop_last()) + ", "@ + "\""@ + v.last()@ + "\""@
    }
}

/// The debug text of one server group.
pub open spec fn group_str<D: BackendDescriptor>(g: WebServer<D>) -> Seq<char> {
    "WebServer {host=["@ + hosts_str(g.host@) + "], interface=["@ + interfaces_str(g.interface@)
        + "]}"@
}

/// The debug text of the whole group sequence.
pub open spec fn groups_str<D: BackendDescriptor>(web: Seq<WebServer<D>>) -> Seq<char>
    decreases web.len(),
{
    if web.len() == 0 {
        Seq::empty()
    } else if web.len() == 1 {
        group_str(web[0])
    } else {
        groups_str(web.drop_last()) + ", "@ + group_str(web.last())
    }
}

/// One decimal digit as text.
fn digit_string(d: u16) -> (r: String)
    requires
        d < 10,
    ensures
        r@ == seq![dec_digit(d as nat)],
{
    let r = if d == 0 {
        "0".to_owned()
    } else if d == 1 {
        "1".to_owned()
    } else if d == 2 {
        "2".to_owned()
    } else if d == 3 {
        "3".to_owned()
    } else if d == 4 {
        "4".to_owned()
    } else if d == 5 {
        "5".to_owned()
    } else if d == 6 {
        "6".to_owned()
    } else if d == 7 {
        "7".to_owned()
    } else if d == 8 {
        "8".to_owned()
    } else {
        "9".to_owned()
    };
    proof {
        reveal_strlit("0");
        reveal_strlit("1");
        reveal_strlit("2");
        reveal_strlit("3");
        reveal_strlit("4");
        reveal_strlit("5");
        reveal_strlit("6");
        reveal_strlit("7");
        reveal_strlit("8");
        reveal_strlit("9");
        assert(r@ =~= seq![dec_digit(d as nat)]);
    }
    r
}

/// Renders a port number in decimal.
pub(crate) fn u16_to_string(n: u16) -> (r: String)
    ensures
        r@ == dec_str(n as nat),
    decreases n,
{
    if n < 10 {
        digit_string(n)
    } else {
        let mut s = u16_to_string(n / 10);
        let d = digit_string(n % 10);
        s.append(d.as_str());
        proof {
            assert(s@ =~= dec_str((n / 10) as nat).push(dec_digit((n % 10) as nat)));
        }
        s
    }
}

/// Renders a count in decimal.
pub(crate) fn u64_to_string(n: u64) -> (r: String)
    ensures
        r@ == dec_str(n as nat),
    decreases n,
{
    if n < 10 {
        digit_string(n as u16)
    } else {
        let mut s = u64_to_string(n / 10);
        let d = digit_string((n % 10) as u16);
        s.append(d.as_str());
        proof {
            assert(s@ =~= dec_str((n / 10) as nat).push(dec_digit((n % 10) as nat)));
        }
        s
    }
}

impl<D: BackendDescriptor> WebServer<D> {
    /// The debug text of this group, naming its hosts and interfaces.
    pub fn describe(&self) -> (r: String)
        ensures
            r@ == group_str(*self),
    {
        let mut out: String = "WebServer {host=[".to_owned();
        let mut k: usize = 0;
        while k < self.host.len()
            invariant
                k <= self.host.len(),
                out@ == "WebServer {host=["@ + hosts_str(self.host@.take(k as int)),
            decreases self.host.len() - k,
        {
            if k > 0 {
                out.append(", ");
            }
            out.append("\"");
            out.append(self.host[k].as_str());
            out.append("\"");
            proof {
                let t = self.host@.take(k as int + 1);
                assert(t.drop_last() =~= self.host@.take(k as int));
                assert(t.last() == self.host@[k as int]);
                if k == 0 {
                    assert(out@ =~= "WebServer {host=["@ + hosts_str(t));
                } else {
                    assert(out@ =~= "WebServer {host=["@ + hosts_str(t));
                }
            }
            k = k + 1;
        }
        proof {
            assert(self.host@.take(self.host@.len() as int) =~= self.host@);
        }
        out.append("], interface=[");
        let ghost prefix = out@;
        let mut k2: usize = 0;
        while k2 < self.interface.len()
            invariant
                k2 <= self.interface.len(),
                out@ == prefix + interfaces_str(self.interface@.take(k2 as int)),
            decreases self.interface.len() - k2,
        {
            if k2 > 0 {
                out.append(", ");
            }
            let x = self.interface[k2];
            match x.attr {
                ServerInterfaceAttribute::Http => out.append("Http"),
                ServerInterfaceAttribute::Https => out.append("Https"),
            }
            out.append(":");
            let p = u16_to_string(x.port);
            out.append(p.as_str());
            proof {
                let t = self.interface@.take(k2 as int + 1);
                assert(t.drop_last() =~= self.interface@.take(k2 as int));
                assert(t.last() == self.interface@[k2 as int]);
                assert(out@ =~= prefix + interfaces_str(t));
            }
            k2 = k2 + 1;
        }
        proof {
            assert(self.interface@.take(self.interface@.len() as int) =~= self.interface@);
        }
        out.append("]}");
        proof {
            assert(out@ =~= group_str(*self));
        }
        out
    }
}

impl<D: BackendDescriptor> Registry<D> {
    /// The debug text of the current group sequence, oldest group first.
    pub fn describe_web_servers(&self) -> (r: String)
        ensures
            r@ == "["@ + groups_str(self.web@) + "]"@,
    {
        let mut out: String = "[".to_owned();
        let mut k: usize = 0;
        while k < self.web.len()
            invariant
                k <= self.web.len(),
                out@ == "["@ + groups_str(self.web@.take(k as int)),
            decreases self.web.len() - k,
        {
            if k > 0 {
                out.append(", ");
            }
            let part = self.web[k].describe();
            out.append(part.as_str());
            proof {
                let t = self.web@.take(k as int + 1);
                assert(t.drop_last() =~= self.web@.take(k as int));
                assert(t.last() == self.web@[k as int]);
                assert(out@ =~= "["@ + groups_str(t));
            }
            k = k + 1;
        }
        proof {
            assert(self.web@.take(self.web@.len() as int) =~= self.web@);
        }
        out.append("]");
        proof {
            assert(out@ =~= "["@ + groups_str(self.web@) + "]"@);
        }
        out
    }
}

} // verus!
