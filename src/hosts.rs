//! Rewriting of the system hosts file: a block of `127.0.0.1 <host>` lines
//! kept between two marker lines.
use vstd::prelude::*;
use vstd::utf8::encode_utf8;

verus! {

/// The marker line that opens the managed block: `### START AUTOFORWARD`.
pub open spec fn header() -> Seq<u8> {
    seq![35u8, 35, 35, 32, 83, 84, 65, 82, 84, 32, 65, 85, 84, 79, 70, 79, 82, 87, 65, 82, 68]
}

/// The marker line that closes the managed block: `### END AUTOFORWARD`.
pub open spec fn footer() -> Seq<u8> {
    seq![35u8, 35, 35, 32, 69, 78, 68, 32, 65, 85, 84, 79, 70, 79, 82, 87, 65, 82, 68]
}

/// The platform line separator (`\n`).
pub open spec fn line_separator() -> Seq<u8> {
    seq![10u8]
}

/// The loopback address written in front of every host: `127.0.0.1`.
pub open spec fn loopback() -> Seq<u8> {
    seq![49u8, 50, 55, 46, 48, 46, 48, 46, 49]
}

/// One line of the managed block.
pub open spec fn host_entry(h: Seq<char>) -> Seq<u8> {
    loopback() + seq![32u8] + encode_utf8(h) + line_separator()
}

/// The lines of the managed block for the given hosts, in order.
pub open spec fn host_entries(hs: Seq<Seq<char>>) -> Seq<u8>
    decreases hs.len(),
{
    if hs.len() == 0 {
        Seq::empty()
    } else {
        host_entries(hs.drop_last()) + host_entry(hs.last())
    }
}

/// `p` occurs in `s` starting at index `i`.
pub open spec fn occurs_at(s: Seq<u8>, p: Seq<u8>, i: int) -> bool {
    0 <= i && i + p.len() <= s.len() && s.subrange(i, i + p.len()) == p
}

/// The first index at or after `from` where `p` occurs in `s`.
pub open spec fn find_from(s: Seq<u8>, p: Seq<u8>, from: int) -> Option<int>
    decreases s.len() + 1 - from,
{
    if from < 0 || from + p.len() > s.len() {
        None
    } else if s.subrange(from, from + p.len()) == p {
        Some(from)
    } else {
        find_from(s, p, from + 1)
    }
}

/// The managed block appended after the whole input, one blank line apart.
pub open spec fn appended(input: Seq<u8>, entries: Seq<u8>) -> Seq<u8> {
    input + line_separator() + header() + line_separator() + entries + footer() + line_separator()
}

/// The input with the managed block set to `entries`: the block between the
/// first header and the first footer after it is replaced; without such a
/// pair of markers the block is appended.
pub open spec fn with_entries(input: Seq<u8>, entries: Seq<u8>) -> Seq<u8> {
    match find_from(input, header(), 0) {
        Some(s) => match find_from(input, footer(), s + header().len()) {
            Some(e) => input.subrange(0, s) + header() + line_separator() + entries + footer()
                + input.subrange(e + footer().len(), input.len() as int),
            None => appended(input, entries),
        },
        None => appended(input, entries),
    }
}

/// `input` holds a header with no footer after it.
pub open spec fn has_unclosed_header(input: Seq<u8>) -> bool {
    match find_from(input, header(), 0) {
        Some(s) => find_from(input, footer(), s + header().len()) is None,
        None => false,
    }
}

/// The path of the system hosts file.
pub fn hosts_file() -> (r: &'static str)
    ensures
        r@ == "/etc/hosts"@,
{
    "/etc/hosts"
}

fn header_bytes() -> (r: Vec<u8>)
    ensures
        r@ == header(),
{
    let r: Vec<u8> = vec![35u8, 35, 35, 32, 83, 84, 65, 82, 84, 32, 65, 85, 84, 79, 70, 79, 82, 87, 65, 82, 68];
    assert(r@ =~= header());
    r
}

fn footer_bytes() -> (r: Vec<u8>)
    ensures
        r@ == footer(),
{
    let r: Vec<u8> = vec![35u8, 35, 35, 32, 69, 78, 68, 32, 65, 85, 84, 79, 70, 79, 82, 87, 65, 82, 68];
    assert(r@ =~= footer());
    r
}

fn loopback_bytes() -> (r: Vec<u8>)
    ensures
        r@ == loopback(),
{
    let r: Vec<u8> = vec![49u8, 50, 55, 46, 48, 46, 48, 46, 49];
    assert(r@ =~= loopback());
    r
}

/// Appends `s[lo..hi]` to `out`.
fn push_range(out: &mut Vec<u8>, s: &[u8], lo: usize, hi: usize)
    requires
        lo <= hi <= s@.len(),
    ensures
        final(out)@ == old(out)@ + s@.subrange(lo as int, hi as int),
{
    let mut i: usize = lo;
    while i < hi
        invariant
            lo <= i <= hi,
            hi <= s@.len(),
            out@ == old(out)@ + s@.subrange(lo as int, i as int),
        decreases hi - i,
    {
        out.push(s[i]);
        assert(s@.subrange(lo as int, i + 1) =~= s@.subrange(lo as int, i as int).push(s@[i as int]));
        i = i + 1;
    }
}

/// Appends all of `s` to `out`.
fn push_all(out: &mut Vec<u8>, s: &[u8])
    ensures
        final(out)@ == old(out)@ + s@,
{
    push_range(out, s, 0, s.len());
    assert(s@.subrange(0, s@.len() as int) =~= s@);
}

/// Whether `p` occurs in `s` at index `i`.
pub(crate) fn matches_at(s: &[u8], p: &[u8], i: usize) -> (r: bool)
    requires
        i + p@.len() <= s@.len(),
    ensures
        r == (s@.subrange(i as int, i + p@.len()) == p@),
{
    let n = s.len();
    let mut j: usize = 0;
    while j < p.len()
        invariant
            j <= p@.len(),
            i + p@.len() <= s@.len(),
            n == s@.len(),
            forall|k: int| 0 <= k < j ==> s@[i + k] == p@[k],
        decreases p@.len() - j,
    {
        if s[i + j] != p[j] {
            assert(s@.subrange(i as int, i + p@.len())[j as int] != p@[j as int]);
            return false;
        }
        j = j + 1;
    }
    assert(s@.subrange(i as int, i + p@.len()) =~= p@);
    true
}

/// The first index at or after `from` where `p` occurs in `s`.
fn find(s: &[u8], p: &[u8], from: usize) -> (r: Option<usize>)
    ensures
        match r {
            Some(i) => find_from(s@, p@, from as int) == Some(i as int),
            None => find_from(s@, p@, from as int) is None,
        },
{
    if from > s.len() || p.len() > s.len() - from {
        return None;
    }
    let mut i: usize = from;
    while p.len() <= s.len() - i
        invariant
            from <= i <= s@.len(),
            find_from(s@, p@, from as int) == find_from(s@, p@, i as int),
        decreases s@.len() - i,
    {
        if matches_at(s, p, i) {
            return Some(i);
        }
        if p.len() == 0 {
            assert(s@.subrange(i as int, i as int) =~= p@);
        }
        i = i + 1;
    }
    None
}

/// Sets the managed block of `input` to `replacement`: replaces what stands
/// between the first header and the first footer after it, or appends a new
/// block, one blank line apart, where there is no such pair of markers.
pub fn insert_or_replace_entries(input: &[u8], replacement: &[u8]) -> (r: Vec<u8>)
    ensures
        r@ == with_entries(input@, replacement@),
{
    let header_v = header_bytes();
    let footer_v = footer_bytes();
    let sep: Vec<u8> = vec![10u8];
    assert(sep@ =~= line_separator());
    let n = input.len();
    let mut result: Vec<u8> = Vec::new();
    if let Some(start) = find(input, header_v.as_slice(), 0) {
        proof {
            lemma_find_from_spec(input@, header(), 0);
        }
        if let Some(end) = find(input, footer_v.as_slice(), start + header_v.len()) {
            proof {
                lemma_find_from_spec(input@, footer(), start + header_v@.len());
            }
            push_range(&mut result, input, 0, start);
            push_all(&mut result, header_v.as_slice());
            push_all(&mut result, sep.as_slice());
            push_all(&mut result, replacement);
            push_all(&mut result, footer_v.as_slice());
            push_range(&mut result, input, end + footer_v.len(), input.len());
            return result;
        }
    }
    push_all(&mut result, input);
    push_all(&mut result, sep.as_slice());
    push_all(&mut result, header_v.as_slice());
    push_all(&mut result, sep.as_slice());
    push_all(&mut result, replacement);
    push_all(&mut result, footer_v.as_slice());
    push_all(&mut result, sep.as_slice());
    result
}

/// The lines `127.0.0.1 <host>` for each host, in order, each ended by the
/// line separator.
pub fn generate_host_entries(hosts: &Vec<String>) -> (r: Vec<u8>)
    ensures
        r@ == host_entries(hosts@.map_values(|h: String| h@)),
{
    let loopback_v = loopback_bytes();
    let space: Vec<u8> = vec![32u8];
    let sep: Vec<u8> = vec![10u8];
    assert(sep@ =~= line_separator());
    let ghost hs = hosts@.map_values(|h: String| h@);
    let mut result: Vec<u8> = Vec::new();
    let mut i: usize = 0;
    while i < hosts.len()
        invariant
            i <= hosts@.len(),
            hs == hosts@.map_values(|h: String| h@),
            loopback_v@ == loopback(),
            space@ == seq![32u8],
            sep@ == line_separator(),
            result@ == host_entries(hs.take(i as int)),
        decreases hosts@.len() - i,
    {
        let host = hosts[i].as_str();
        push_all(&mut result, loopback_v.as_slice());
        push_all(&mut result, space.as_slice());
        push_all(&mut result, host.as_bytes());
        push_all(&mut result, sep.as_slice());
        assert(hs.take(i + 1).drop_last() =~= hs.take(i as int));
        assert(hs.take(i + 1).last() == hs[i as int]);
        i = i + 1;
    }
    assert(hs.take(hosts@.len() as int) =~= hs);
    result
}

/// What `find_from` returns: the first occurrence at or after `from`, or none
/// when there is no occurrence from there on.
pub proof fn lemma_find_from_spec(s: Seq<u8>, p: Seq<u8>, from: int)
    requires
        0 <= from,
    ensures
        match find_from(s, p, from) {
            Some(i) => from <= i && occurs_at(s, p, i) && forall|j: int|
                from <= j < i ==> !occurs_at(s, p, j),
            None => forall|j: int| from <= j ==> !occurs_at(s, p, j),
        },
    decreases s.len() + 1 - from,
{
    if from + p.len() > s.len() {
    } else if s.subrange(from, from + p.len()) == p {
    } else {
        lemma_find_from_spec(s, p, from + 1);
        assert(!occurs_at(s, p, from));
    }
}

/// An occurrence with none before it, from `from` on, is what `find_from`
/// returns.
proof fn lemma_find_from_first(s: Seq<u8>, p: Seq<u8>, from: int, i: int)
    requires
        0 <= from <= i,
        occurs_at(s, p, i),
        forall|j: int| from <= j < i ==> !occurs_at(s, p, j),
    ensures
        find_from(s, p, from) == Some(i),
{
    lemma_find_from_spec(s, p, from);
}

proof fn lemma_markers_have_no_newline()
    ensures
        forall|t: int| 0 <= t < header().len() ==> header()[t] != 10u8,
        forall|t: int| 0 <= t < footer().len() ==> footer()[t] != 10u8,
        header().len() == 21,
        footer().len() == 19,
{
}

/// Where two sequences agree up to `k`, an occurrence that ends by `k` is in
/// both or in neither.
proof fn lemma_occurs_agree(a: Seq<u8>, b: Seq<u8>, p: Seq<u8>, j: int, k: int)
    requires
        0 <= j,
        j + p.len() <= k <= a.len(),
        k <= b.len(),
        a.subrange(0, k) == b.subrange(0, k),
    ensures
        occurs_at(a, p, j) == occurs_at(b, p, j),
{
    assert(a.subrange(j, j + p.len()) =~= a.subrange(0, k).subrange(j, j + p.len()));
    assert(b.subrange(j, j + p.len()) =~= b.subrange(0, k).subrange(j, j + p.len()));
}

/// In `pre + [\n] + r + footer + post`, with no footer in `r`, the first
/// footer at or after the separator is the one after `r`.
proof fn lemma_footer_after(out: Seq<u8>, k: int, r: Seq<u8>)
    requires
        0 <= k,
        k + 1 + r.len() + footer().len() <= out.len(),
        out[k] == 10u8,
        out.subrange(k + 1, k + 1 + r.len()) == r,
        out.subrange(k + 1 + r.len(), k + 1 + r.len() + footer().len()) == footer(),
        find_from(r, footer(), 0) is None,
    ensures
        find_from(out, footer(), k) == Some(k + 1 + r.len()),
{
    let f = footer();
    let m0 = k + 1 + r.len();
    lemma_find_from_spec(r, f, 0);
    lemma_markers_have_no_newline();
    assert forall|j: int| k <= j < m0 implies !occurs_at(out, f, j) by {
        if occurs_at(out, f, j) {
            if j == k {
                assert(out.subrange(j, j + f.len())[0] == out[k]);
            } else if j + f.len() <= m0 {
                assert(r.subrange(j - k - 1, j - k - 1 + f.len()) =~= out.subrange(j, j + f.len()));
                assert(occurs_at(r, f, j - k - 1));
            } else {
                let m = m0 - j;
                assert(out.subrange(j, j + f.len())[0] == out[j]);
                assert(out[j + m] == f[0]);
                assert(out.subrange(j, j + f.len())[m] == out[j + m]);
                assert(f[m] == 35u8);
                if m == 1 {
                    assert(out.subrange(j, j + f.len())[3] == out[j + 3]);
                    assert(out.subrange(m0, m0 + f.len())[2] == out[m0 + 2]);
                    assert(f[3] == f[2]);
                } else {
                    assert(m == 2);
                    assert(out.subrange(j, j + f.len())[3] == out[j + 3]);
                    assert(out.subrange(m0, m0 + f.len())[1] == out[m0 + 1]);
                    assert(f[3] == f[1]);
                }
            }
        }
    }
    assert(occurs_at(out, f, m0));
    lemma_find_from_first(out, f, k, m0);
}

/// Setting the managed block twice to the same entries gives what setting it
/// once gives; a replacement keeps the bytes before the header and after the
/// footer, and an append keeps the whole input in front. This holds wherever
/// the entries hold no footer and the input holds no header left unclosed.
pub proof fn lemma_entries_idempotent(input: Seq<u8>, entries: Seq<u8>)
    requires
        find_from(entries, footer(), 0) is None,
        !has_unclosed_header(input),
    ensures
        with_entries(with_entries(input, entries), entries) == with_entries(input, entries),
        match find_from(input, header(), 0) {
            Some(s) => match find_from(input, footer(), s + header().len()) {
                Some(e) => with_entries(input, entries).subrange(0, s) == input.subrange(0, s)
                    && with_entries(input, entries).subrange(
                    with_entries(input, entries).len() - (input.len() - e - footer().len()),
                    with_entries(input, entries).len() as int,
                ) == input.subrange(e + footer().len(), input.len() as int),
                None => false,
            },
            None => with_entries(input, entries) == appended(input, entries),
        },
{
    let h = header();
    let f = footer();
    let out = with_entries(input, entries);
    lemma_markers_have_no_newline();
    lemma_find_from_spec(input, h, 0);
    match find_from(input, h, 0) {
        Some(s) => {
            lemma_find_from_spec(input, f, s + h.len());
            let e = find_from(input, f, s + h.len()).unwrap();
            let post = input.subrange(e + f.len(), input.len() as int);
            // `out` agrees with `input` up to the end of the header.
            assert(out.subrange(0, s + h.len()) =~= input.subrange(0, s + h.len()));
            assert forall|j: int| 0 <= j < s implies !occurs_at(out, h, j) by {
                lemma_occurs_agree(out, input, h, j, s + h.len());
            }
            assert(out.subrange(s, s + h.len()) =~= h);
            lemma_find_from_first(out, h, 0, s);
            let k = s + h.len();
            assert(out.subrange(k + 1, k + 1 + entries.len()) =~= entries);
            assert(out.subrange(k + 1 + entries.len(), k + 1 + entries.len() + f.len()) =~= f);
            lemma_footer_after(out, k, entries);
            assert(out.subrange(k + 1 + entries.len() + f.len(), out.len() as int) =~= post);
            assert(with_entries(out, entries) =~= out);
            assert(out.subrange(0, s) =~= input.subrange(0, s));
            assert(out.subrange(out.len() - (input.len() - e - f.len()), out.len() as int) =~= post);
        },
        None => {
            let n = input.len() as int;
            assert(out.subrange(0, n) =~= input);
            assert(input.subrange(0, n) =~= input);
            assert forall|j: int| 0 <= j < n + 1 implies !occurs_at(out, h, j) by {
                if j + h.len() <= n {
                    lemma_occurs_agree(out, input, h, j, n);
                } else if occurs_at(out, h, j) {
                    assert(out.subrange(j, j + h.len())[n - j] == out[n]);
                }
            }
            assert(out.subrange(n + 1, n + 1 + h.len()) =~= h);
            lemma_find_from_first(out, h, 0, n + 1);
            let k = n + 1 + h.len();
            assert(out.subrange(k + 1, k + 1 + entries.len()) =~= entries);
            assert(out.subrange(k + 1 + entries.len(), k + 1 + entries.len() + f.len()) =~= f);
            lemma_footer_after(out, k, entries);
            assert(with_entries(out, entries) =~= out);
        },
    }
}

} // verus!
