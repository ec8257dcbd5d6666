//! What the request router decides before it forwards a request: the host it
//! is for.
use vstd::prelude::*;

verus! {

/// The index of the first `:` in `h` at or after `from`.
pub open spec fn first_colon(h: Seq<char>, from: int) -> Option<int>
    decreases h.len() - from,
{
    if from < 0 || from >= h.len() {
        None
    } else if h[from] == ':' {
        Some(from)
    } else {
        first_colon(h, from + 1)
    }
}

/// A `Host` value without its `:port` suffix: all before the first `:`.
pub open spec fn host_without_port(h: Seq<char>) -> Seq<char> {
    match first_colon(h, 0) {
        Some(i) => h.subrange(0, i),
        None => h,
    }
}

/// Strips a `:port` suffix from a `Host` value.
pub fn strip_port(h: &str) -> (r: String)
    ensures
        r@ == host_without_port(h@),
{
    let n = h.unicode_len();
    let mut i: usize = 0;
    while i < n
        invariant
            n == h@.len(),
            i <= n,
            first_colon(h@, 0) == first_colon(h@, i as int),
        decreases n - i,
    {
        if h.get_char(i) == ':' {
            return h.substring_char(0, i).to_owned();
        }
        i = i + 1;
    }
    h.to_owned()
}

/// The host a request is for, from its `Host` header: `None` when the header
/// is missing, which the router answers with `400 Bad Request`.
pub fn request_host(header: Option<&str>) -> (r: Option<String>)
    ensures
        match header {
            Some(h) => r is Some && (r->0)@ == host_without_port(h@),
            None => r is None,
        },
{
    match header {
        Some(h) => Some(strip_port(h)),
        None => None,
    }
}

proof fn lemma_colon_after(h: Seq<char>, port: Seq<char>, from: int)
    requires
        0 <= from <= h.len(),
        forall|i: int| 0 <= i < h.len() ==> h[i] != ':',
    ensures
        first_colon(h + seq![':'] + port, from) == Some(h.len() as int),
        first_colon(h, from) is None,
    decreases h.len() - from,
{
    let s = h + seq![':'] + port;
    assert(s[h.len() as int] == ':');
    if from < h.len() {
        assert(s[from] == h[from]);
        lemma_colon_after(h, port, from + 1);
    }
}

/// A `Host` value followed by `:port` names the same host as the value
/// alone, wherever the host itself holds no `:`.
pub proof fn lemma_port_ignored(h: Seq<char>, port: Seq<char>)
    requires
        forall|i: int| 0 <= i < h.len() ==> h[i] != ':',
    ensures
        host_without_port(h + seq![':'] + port) == host_without_port(h),
        host_without_port(h) == h,
{
    lemma_colon_after(h, port, 0);
    assert((h + seq![':'] + port).subrange(0, h.len() as int) =~= h);
}

} // verus!
