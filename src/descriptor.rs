//! Application descriptors, their discovery, and the choice of the ingress
//! that serves a request.
use vstd::prelude::*;
use vstd::utf8::encode_utf8;

use crate::hosts::matches_at;
use crate::kubernetes::{ApplicationResource, KubernetesResponse};
use crate::text::{opt_view, parse_uri, uri_parts};

verus! {

/// An application as discovered in the cluster.
pub struct ApplicationDescriptor {
    /// The service name used when opening a tunnel.
    pub application_name: String,
    /// The public URLs of the application, in the order declared.
    pub ingresses: Vec<String>,
    /// The path probed for health, if the application declares one.
    pub liveness: Option<String>,
    /// The cluster context it was found in.
    pub context: String,
    /// The namespace it was found in.
    pub namespace: String,
}

/// The views of a sequence of strings.
pub open spec fn views(v: Seq<String>) -> Seq<Seq<char>> {
    v.map_values(|s: String| s@)
}

/// `p` is a byte prefix of `s`.
pub open spec fn is_byte_prefix(p: Seq<u8>, s: Seq<u8>) -> bool {
    p.len() <= s.len() && s.subrange(0, p.len() as int) == p
}

/// The ingress parses, its host is `host` and its path is a byte prefix of
/// `path`.
pub open spec fn is_candidate(ingress: Seq<char>, host: Seq<char>, path: Seq<char>) -> bool {
    match uri_parts(ingress) {
        Some((Some(h), p)) => h == host && is_byte_prefix(encode_utf8(p), encode_utf8(path)),
        _ => false,
    }
}

/// The length in bytes of the ingress's URI path.
pub open spec fn uri_path_len(ingress: Seq<char>) -> int {
    match uri_parts(ingress) {
        Some((_, p)) => encode_utf8(p).len() as int,
        None => 0,
    }
}

/// The candidate with the longest URI path, the last of equals.
pub open spec fn best_of(ingresses: Seq<Seq<char>>, host: Seq<char>, path: Seq<char>) -> Option<Seq<char>>
    decreases ingresses.len(),
{
    if ingresses.len() == 0 {
        None
    } else {
        let prev = best_of(ingresses.drop_last(), host, path);
        let x = ingresses.last();
        if is_candidate(x, host, path) && (prev is None || uri_path_len(x) >= uri_path_len(prev->0)) {
            Some(x)
        } else {
            prev
        }
    }
}

/// The ingresses of each descriptor.
pub open spec fn table(ds: Seq<ApplicationDescriptor>) -> Seq<Seq<Seq<char>>> {
    ds.map_values(|d: ApplicationDescriptor| d.ingress_views())
}

/// The best ingress over all descriptors, with the descriptor's index: the
/// longest in bytes of the descriptors' best ingresses, the last of equals.
pub open spec fn resolve_of(t: Seq<Seq<Seq<char>>>, host: Seq<char>, path: Seq<char>) -> Option<(Seq<char>, int)>
    decreases t.len(),
{
    if t.len() == 0 {
        None
    } else {
        let prev = resolve_of(t.drop_last(), host, path);
        match best_of(t.last(), host, path) {
            Some(b) => if prev is None || encode_utf8(b).len() >= encode_utf8((prev->0).0).len() {
                Some((b, t.len() - 1))
            } else {
                prev
            },
            None => prev,
        }
    }
}

/// The resource declares at least one ingress.
pub open spec fn has_ingresses(a: ApplicationResource) -> bool {
    a.spec.ingresses is Some && a.spec.ingresses->0@.len() > 0
}

/// The resources that declare ingresses, in order.
pub open spec fn kept_resources(items: Seq<ApplicationResource>) -> Seq<ApplicationResource>
    decreases items.len(),
{
    if items.len() == 0 {
        Seq::empty()
    } else if has_ingresses(items.last()) {
        kept_resources(items.drop_last()).push(items.last())
    } else {
        kept_resources(items.drop_last())
    }
}

/// `d` is the descriptor of resource `a` found in `context` and `namespace`.
pub open spec fn describes(d: ApplicationDescriptor, a: ApplicationResource, context: String, namespace: String) -> bool {
    &&& d.application_name == a.metadata.name
    &&& a.spec.ingresses == Some(d.ingresses)
    &&& d.liveness == match a.spec.liveness {
        Some(h) => Some(h.path),
        None => None,
    }
    &&& d.context == context
    &&& d.namespace == namespace
}

impl ApplicationDescriptor {
    /// The views of the ingresses.
    pub open spec fn ingress_views(&self) -> Seq<Seq<char>> {
        views(self.ingresses@)
    }

    /// The descriptor of a resource that declares ingresses.
    pub fn create(resource: ApplicationResource, context: String, namespace: String) -> (r: Self)
        requires
            resource.spec.ingresses is Some,
        ensures
            describes(r, resource, context, namespace),
    {
        let liveness = match resource.spec.liveness {
            Some(h) => Some(h.path),
            None => None,
        };
        ApplicationDescriptor {
            application_name: resource.metadata.name,
            ingresses: resource.spec.ingresses.unwrap(),
            liveness,
            context,
            namespace,
        }
    }

    /// Of the ingresses whose URI host is `host` and whose URI path is a byte
    /// prefix of `path`, the one with the longest path.
    pub fn best_ingress(&self, host: &str, path: &str) -> (r: Option<String>)
        ensures
            opt_view(r) == best_of(self.ingress_views(), host@, path@),
    {
        let host_s = host.to_owned();
        let path_b = path.as_bytes();
        let ghost ings = self.ingress_views();
        let mut best: Option<String> = None;
        let mut best_len: usize = 0;
        let mut i: usize = 0;
        while i < self.ingresses.len()
            invariant
                i <= self.ingresses@.len(),
                ings == self.ingress_views(),
                host_s@ == host@,
                path_b@ == encode_utf8(path@),
                opt_view(best) == best_of(ings.take(i as int), host@, path@),
                best is Some ==> best_len as int == uri_path_len((best->0)@),
            decreases self.ingresses@.len() - i,
        {
            let ing = &self.ingresses[i];
            assert(ings.take(i + 1).drop_last() =~= ings.take(i as int));
            assert(ings.take(i + 1).last() == ing@);
            if let Some((Some(h), p)) = parse_uri(ing.as_str()) {
                let pb = p.as_str().as_bytes();
                if h == host_s && pb.len() <= path_b.len() && matches_at(path_b, pb, 0) {
                    if best.is_none() || pb.len() >= best_len {
                        best = Some(ing.clone());
                        best_len = pb.len();
                    }
                }
            }
            i = i + 1;
        }
        assert(ings.take(self.ingresses@.len() as int) =~= ings);
        best
    }

    /// The arguments of the cluster tool that opens a tunnel to this
    /// application: `port-forward --context <c> --namespace <n> svc/<name> :80`.
    pub fn port_forward_args(&self) -> (r: Vec<String>)
        ensures
            views(r@) == seq![
                "port-forward"@,
                "--context"@,
                self.context@,
                "--namespace"@,
                self.namespace@,
                "svc/"@ + self.application_name@,
                ":80"@,
            ],
    {
        let mut service = "svc/".to_owned();
        service.append(self.application_name.as_str());
        let r = vec![
            "port-forward".to_owned(),
            "--context".to_owned(),
            self.context.clone(),
            "--namespace".to_owned(),
            self.namespace.clone(),
            service,
            ":80".to_owned(),
        ];
        assert(views(r@) =~= seq![
            "port-forward"@,
            "--context"@,
            self.context@,
            "--namespace"@,
            self.namespace@,
            "svc/"@ + self.application_name@,
            ":80"@,
        ]);
        r
    }
}

/// The best ingress for `host` and `path` over all descriptors, with the index
/// of the descriptor it belongs to.
pub fn resolve(descriptors: &Vec<ApplicationDescriptor>, host: &str, path: &str) -> (r: Option<(String, usize)>)
    ensures
        match r {
            Some((ingress, d)) => resolve_of(table(descriptors@), host@, path@) == Some((ingress@, d as int)),
            None => resolve_of(table(descriptors@), host@, path@) is None,
        },
{
    let ghost t = table(descriptors@);
    let mut best: Option<(String, usize)> = None;
    let mut best_len: usize = 0;
    let mut i: usize = 0;
    while i < descriptors.len()
        invariant
            i <= descriptors@.len(),
            t == table(descriptors@),
            match best {
                Some((ingress, d)) => resolve_of(t.take(i as int), host@, path@) == Some((ingress@, d as int))
                    && best_len == encode_utf8(ingress@).len(),
                None => resolve_of(t.take(i as int), host@, path@) is None,
            },
        decreases descriptors@.len() - i,
    {
        assert(t.take(i + 1).drop_last() =~= t.take(i as int));
        assert(t.take(i + 1).last() == descriptors@[i as int].ingress_views());
        assert(t.take(i + 1).len() - 1 == i);
        if let Some(b) = descriptors[i].best_ingress(host, path) {
            let n = b.as_str().as_bytes().len();
            if best.is_none() || n >= best_len {
                best = Some((b, i));
                best_len = n;
            }
        }
        i = i + 1;
    }
    assert(t.take(descriptors@.len() as int) =~= t);
    best
}

/// The (context, namespace) pairs that discovery visits: contexts outer,
/// namespaces inner, each in the order given.
pub open spec fn targets_of(cs: Seq<Seq<char>>, ns: Seq<Seq<char>>) -> Seq<(Seq<char>, Seq<char>)>
    decreases cs.len(),
{
    if cs.len() == 0 {
        Seq::empty()
    } else {
        targets_of(cs.drop_last(), ns) + ns.map_values(|n: Seq<char>| (cs.last(), n))
    }
}

/// The views of a sequence of pairs of strings.
pub open spec fn pair_views(v: Seq<(String, String)>) -> Seq<(Seq<char>, Seq<char>)> {
    v.map_values(|p: (String, String)| (p.0@, p.1@))
}

/// The (context, namespace) pairs that discovery visits, in order.
pub fn discovery_targets(contexts: &Vec<String>, namespaces: &Vec<String>) -> (r: Vec<(String, String)>)
    ensures
        pair_views(r@) == targets_of(views(contexts@), views(namespaces@)),
{
    let ghost cs = views(contexts@);
    let ghost ns = views(namespaces@);
    let mut out: Vec<(String, String)> = Vec::new();
    let mut c: usize = 0;
    while c < contexts.len()
        invariant
            c <= contexts@.len(),
            cs == views(contexts@),
            ns == views(namespaces@),
            pair_views(out@) == targets_of(cs.take(c as int), ns),
        decreases contexts@.len() - c,
    {
        let ghost base = targets_of(cs.take(c as int), ns);
        let mut j: usize = 0;
        while j < namespaces.len()
            invariant
                j <= namespaces@.len(),
                c < contexts@.len(),
                cs == views(contexts@),
                ns == views(namespaces@),
                pair_views(out@) == base + ns.take(j as int).map_values(|n: Seq<char>| (cs[c as int], n)),
            decreases namespaces@.len() - j,
        {
            let ghost prev = out@;
            out.push((contexts[c].clone(), namespaces[j].clone()));
            assert(cs[c as int] == contexts@[c as int]@);
            assert(ns[j as int] == namespaces@[j as int]@);
            assert(pair_views(out@) =~= pair_views(prev).push((cs[c as int], ns[j as int])));
            assert(ns.take(j + 1).map_values(|n: Seq<char>| (cs[c as int], n)) =~= ns.take(j as int).map_values(
                |n: Seq<char>| (cs[c as int], n),
            ).push((cs[c as int], ns[j as int])));
            assert(pair_views(out@) =~= base + ns.take(j + 1).map_values(|n: Seq<char>| (cs[c as int], n)));
            j = j + 1;
        }
        assert(ns.take(namespaces@.len() as int) =~= ns);
        assert(cs.take(c + 1).drop_last() =~= cs.take(c as int));
        assert(cs.take(c + 1).last() == cs[c as int]);
        c = c + 1;
    }
    assert(cs.take(contexts@.len() as int) =~= cs);
    out
}

/// The arguments of the cluster tool that lists the applications of a
/// context and namespace: `--context <c> --namespace <n> get application -o json`.
pub fn discovery_args(context: &String, namespace: &String) -> (r: Vec<String>)
    ensures
        views(r@) == seq![
            "--context"@,
            context@,
            "--namespace"@,
            namespace@,
            "get"@,
            "application"@,
            "-o"@,
            "json"@,
        ],
{
    let r = vec![
        "--context".to_owned(),
        context.clone(),
        "--namespace".to_owned(),
        namespace.clone(),
        "get".to_owned(),
        "application".to_owned(),
        "-o".to_owned(),
        "json".to_owned(),
    ];
    assert(views(r@) =~= seq![
        "--context"@,
        context@,
        "--namespace"@,
        namespace@,
        "get"@,
        "application"@,
        "-o"@,
        "json"@,
    ]);
    r
}

/// The descriptors of the resources in a discovery answer that declare
/// ingresses, in order.
pub fn descriptors_from_response(response: KubernetesResponse, context: &String, namespace: &String) -> (r: Vec<ApplicationDescriptor>)
    ensures
        r@.len() == kept_resources(response.items@).len(),
        forall|i: int|
            0 <= i < r@.len() ==> describes(#[trigger] r@[i], kept_resources(response.items@)[i], *context, *namespace),
{
    let ghost orig = response.items@;
    let mut items = response.items;
    let mut out: Vec<ApplicationDescriptor> = Vec::new();
    let ghost mut i: int = 0;
    while items.len() > 0
        invariant
            0 <= i <= orig.len(),
            items@ == orig.subrange(i, orig.len() as int),
            out@.len() == kept_resources(orig.take(i)).len(),
            forall|k: int|
                0 <= k < out@.len() ==> describes(#[trigger] out@[k], kept_resources(orig.take(i))[k], *context, *namespace),
        decreases items@.len(),
    {
        let a = items.remove(0);
        proof {
            assert(orig.take(i + 1).drop_last() =~= orig.take(i));
            assert(orig.take(i + 1).last() == a);
        }
        let keep = match &a.spec.ingresses {
            Some(v) => v.len() > 0,
            None => false,
        };
        if keep {
            let d = ApplicationDescriptor::create(a, context.clone(), namespace.clone());
            out.push(d);
        }
        proof {
            i = i + 1;
            assert(items@ =~= orig.subrange(i, orig.len() as int));
        }
    }
    assert(orig.take(i) =~= orig);
    out
}

/// The best ingress of a descriptor is one of its ingresses, serves the host
/// and path, and has a URI path at least as long as that of every other
/// ingress that serves them; there is none exactly when no ingress serves them.
pub proof fn lemma_best_ingress_longest(ingresses: Seq<Seq<char>>, host: Seq<char>, path: Seq<char>)
    ensures
        match best_of(ingresses, host, path) {
            Some(b) => ingresses.contains(b) && is_candidate(b, host, path) && forall|i: int|
                0 <= i < ingresses.len() && is_candidate(#[trigger] ingresses[i], host, path)
                    ==> uri_path_len(ingresses[i]) <= uri_path_len(b),
            None => forall|i: int| 0 <= i < ingresses.len() ==> !is_candidate(#[trigger] ingresses[i], host, path),
        },
    decreases ingresses.len(),
{
    if ingresses.len() > 0 {
        let init = ingresses.drop_last();
        let n = ingresses.len() - 1;
        let x = ingresses.last();
        lemma_best_ingress_longest(init, host, path);
        assert forall|i: int| 0 <= i < init.len() implies #[trigger] init[i] == ingresses[i] by {}
        assert(ingresses[n] == x);
        let prev = best_of(init, host, path);
        match best_of(ingresses, host, path) {
            Some(b) => {
                if is_candidate(x, host, path) && (prev is None || uri_path_len(x) >= uri_path_len(prev->0)) {
                    assert(b == x);
                    assert forall|i: int|
                        0 <= i < ingresses.len() && is_candidate(#[trigger] ingresses[i], host, path)
                            implies uri_path_len(ingresses[i]) <= uri_path_len(b) by {
                        if i < n {
                            assert(init[i] == ingresses[i]);
                        }
                    }
                } else {
                    assert(prev == Some(b));
                    let k = choose|k: int| 0 <= k < init.len() && init[k] == b;
                    assert(ingresses[k] == b);
                    assert forall|i: int|
                        0 <= i < ingresses.len() && is_candidate(#[trigger] ingresses[i], host, path)
                            implies uri_path_len(ingresses[i]) <= uri_path_len(b) by {
                        if i < n {
                            assert(init[i] == ingresses[i]);
                        }
                    }
                }
            },
            None => {
                assert forall|i: int| 0 <= i < ingresses.len() implies !is_candidate(#[trigger] ingresses[i], host, path) by {
                    if i < n {
                        assert(init[i] == ingresses[i]);
                    }
                }
            },
        }
    }
}

/// Over several descriptors, the chosen ingress is the best ingress of the
/// chosen descriptor, and no other descriptor's best ingress is longer in
/// bytes; there is none exactly when no descriptor has a best ingress.
pub proof fn lemma_resolve_longest(t: Seq<Seq<Seq<char>>>, host: Seq<char>, path: Seq<char>)
    ensures
        match resolve_of(t, host, path) {
            Some((b, d)) => 0 <= d < t.len() && best_of(t[d], host, path) == Some(b) && forall|j: int|
                0 <= j < t.len() && #[trigger] best_of(t[j], host, path) is Some ==> encode_utf8(
                    best_of(t[j], host, path)->0,
                ).len() <= encode_utf8(b).len(),
            None => forall|j: int| 0 <= j < t.len() ==> #[trigger] best_of(t[j], host, path) is None,
        },
    decreases t.len(),
{
    if t.len() > 0 {
        let init = t.drop_last();
        let n = t.len() - 1;
        lemma_resolve_longest(init, host, path);
        assert forall|j: int| 0 <= j < init.len() implies #[trigger] init[j] == t[j] by {}
        assert(t[n] == t.last());
        let prev = resolve_of(init, host, path);
        match resolve_of(t, host, path) {
            Some((b, d)) => {
                assert forall|j: int|
                    0 <= j < t.len() && #[trigger] best_of(t[j], host, path) is Some implies encode_utf8(
                        best_of(t[j], host, path)->0,
                    ).len() <= encode_utf8(b).len() by {
                    if j < n {
                        assert(init[j] == t[j]);
                    }
                }
            },
            None => {
                assert forall|j: int| 0 <= j < t.len() implies #[trigger] best_of(t[j], host, path) is None by {
                    if j < n {
                        assert(init[j] == t[j]);
                    }
                }
            },
        }
    }
}

} // verus!
