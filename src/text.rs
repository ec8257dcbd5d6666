//! Text that the engine reads: ingress URIs, the tunnel's first output line,
//! and the port number in it.
use vstd::prelude::*;

verus! {

/// The view of an optional string.
pub open spec fn opt_view(o: Option<String>) -> Option<Seq<char>> {
    match o {
        Some(s) => Some(s@),
        None => None,
    }
}

/// What hyper's URI parser makes of `s`: `None` where it refuses `s`, else the
/// URI's host, if any, and its path.
pub uninterp spec fn uri_parts(s: Seq<char>) -> Option<(Option<Seq<char>>, Seq<char>)>;

/// What the regular expression `pattern` captures in `text`: `None` where the
/// pattern does not compile or does not match, else one entry per group, the
/// whole match first.
pub uninterp spec fn regex_groups(pattern: Seq<char>, text: Seq<char>) -> Option<Seq<Option<Seq<char>>>>;

/// Relies on `hyper::Uri`'s `FromStr`, with `Uri::host` and `Uri::path` read
/// off the parsed value.
#[verifier::external_body]
pub(crate) fn parse_uri(s: &str) -> (r: Option<(Option<String>, String)>)
    ensures
        match r {
            Some((h, p)) => uri_parts(s@) == Some((opt_view(h), p@)),
            None => uri_parts(s@) is None,
        },
{
    match s.parse::<hyper::Uri>() {
        Ok(uri) => Some((uri.host().map(|h| h.to_string()), uri.path().to_string())),
        Err(_) => None,
    }
}

/// Relies on `regex::Regex::new` and `Regex::captures`: the groups of the
/// leftmost match, each as an owned string.
#[verifier::external_body]
pub(crate) fn captures(pattern: &str, text: &str) -> (r: Option<Vec<Option<String>>>)
    ensures
        match r {
            Some(groups) => regex_groups(pattern@, text@) == Some(
                groups@.map_values(|g: Option<String>| opt_view(g)),
            ),
            None => regex_groups(pattern@, text@) is None,
        },
{
    let re = regex::Regex::new(pattern).ok()?;
    let caps = re.captures(text)?;
    Some(caps.iter().map(|m| m.map(|m| m.as_str().to_string())).collect())
}

/// The value of a run of ASCII digits.
pub open spec fn digits_value(s: Seq<char>) -> nat
    decreases s.len(),
{
    if s.len() == 0 {
        0
    } else {
        digits_value(s.drop_last()) * 10 + (s.last() as nat - '0' as nat) as nat
    }
}

/// `s` is a port as the tunnel prints it: one to five ASCII digits.
pub open spec fn is_port_text(s: Seq<char>) -> bool {
    1 <= s.len() <= 5 && forall|i: int| 0 <= i < s.len() ==> '0' <= #[trigger] s[i] <= '9'
}

/// Ten to the power `n`.
pub open spec fn pow10(n: nat) -> nat
    decreases n,
{
    if n == 0 {
        1
    } else {
        10 * pow10((n - 1) as nat)
    }
}

/// Reads a port number: `Some` of its value exactly when `s` is one to five
/// ASCII digits.
pub fn parse_port(s: &str) -> (r: Option<usize>)
    ensures
        match r {
            Some(v) => is_port_text(s@) && v as nat == digits_value(s@),
            None => !is_port_text(s@),
        },
{
    let n = s.unicode_len();
    if n == 0 || n > 5 {
        return None;
    }
    let mut value: usize = 0;
    let mut i: usize = 0;
    while i < n
        invariant
            n == s@.len(),
            1 <= n <= 5,
            i <= n,
            forall|k: int| 0 <= k < i ==> '0' <= #[trigger] s@[k] <= '9',
            value as nat == digits_value(s@.take(i as int)),
            value < pow10(i as nat),
        decreases n - i,
    {
        let c = s.get_char(i);
        if c < '0' || c > '9' {
            return None;
        }
        proof {
            assert(s@.take(i + 1).drop_last() =~= s@.take(i as int));
            assert(pow10((i + 1) as nat) == 10 * pow10(i as nat));
            assert(pow10(i as nat) <= 10000) by {
                assert(pow10(0) == 1);
                assert(pow10(1) == 10);
                assert(pow10(2) == 100);
                assert(pow10(3) == 1000);
                assert(pow10(4) == 10000);
            }
        }
        value = value * 10 + (c as u32 - '0' as u32) as usize;
        i = i + 1;
    }
    assert(s@.take(n as int) =~= s@);
    Some(value)
}

} // verus!
