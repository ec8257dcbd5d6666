//! The host names that the descriptors' ingresses declare, sorted and without
//! repeats, for the hosts file.
use vstd::prelude::*;
use vstd::utf8::{encode_utf8, encode_utf8_decode_utf8};

use crate::descriptor::{table, views, ApplicationDescriptor};
use crate::hosts::matches_at;
use crate::text::{captures, opt_view, regex_groups};

verus! {

/// The regular expression whose first group is an ingress's host.
pub open spec fn host_pattern() -> Seq<char> {
    "https?://(.[^/]+)(:?/.*)?"@
}

/// The host of an ingress, where the host pattern matches it.
pub open spec fn ingress_host(ingress: Seq<char>) -> Option<Seq<char>> {
    match regex_groups(host_pattern(), ingress) {
        Some(g) => if g.len() >= 2 {
            g[1]
        } else {
            None
        },
        None => None,
    }
}

/// All ingresses of all descriptors, in order.
pub open spec fn all_ingresses(t: Seq<Seq<Seq<char>>>) -> Seq<Seq<char>>
    decreases t.len(),
{
    if t.len() == 0 {
        Seq::empty()
    } else {
        all_ingresses(t.drop_last()) + t.last()
    }
}

/// The hosts of the ingresses, in order, skipping those without one.
pub open spec fn hosts_of(ingresses: Seq<Seq<char>>) -> Seq<Seq<char>>
    decreases ingresses.len(),
{
    if ingresses.len() == 0 {
        Seq::empty()
    } else {
        match ingress_host(ingresses.last()) {
            Some(h) => hosts_of(ingresses.drop_last()).push(h),
            None => hosts_of(ingresses.drop_last()),
        }
    }
}

/// Lexicographic order on bytes, the order of `str`.
pub open spec fn bytes_le(a: Seq<u8>, b: Seq<u8>) -> bool
    decreases a.len(),
{
    if a.len() == 0 {
        true
    } else if b.len() == 0 {
        false
    } else if a[0] != b[0] {
        a[0] < b[0]
    } else {
        bytes_le(a.drop_first(), b.drop_first())
    }
}

/// The strings are in `str` order.
pub open spec fn sorted_strings(s: Seq<String>) -> bool {
    forall|i: int, j: int| 0 <= i < j < s.len() ==> bytes_le(encode_utf8(#[trigger] s[i]@), encode_utf8(#[trigger] s[j]@))
}

proof fn lemma_bytes_le_antisymmetric(a: Seq<u8>, b: Seq<u8>)
    requires
        bytes_le(a, b),
        bytes_le(b, a),
    ensures
        a == b,
    decreases a.len(),
{
    if a.len() > 0 && b.len() > 0 {
        lemma_bytes_le_antisymmetric(a.drop_first(), b.drop_first());
        assert(a =~= seq![a[0]] + a.drop_first());
        assert(b =~= seq![b[0]] + b.drop_first());
    }
}

/// Relies on `slice::sort` over `String`s: the same strings, in the order of
/// `str`'s `Ord`, which compares the bytes lexicographically.
#[verifier::external_body]
fn sort_strings(v: &mut Vec<String>)
    ensures
        final(v)@.to_multiset() == old(v)@.to_multiset(),
        sorted_strings(final(v)@),
{
    v.sort();
}

/// The host of an ingress, where the host pattern matches it.
fn ingress_hostname(ingress: &str) -> (r: Option<String>)
    ensures
        match r {
            Some(h) => ingress_host(ingress@) == Some(h@),
            None => ingress_host(ingress@) is None,
        },
{
    match captures("https?://(.[^/]+)(:?/.*)?", ingress) {
        Some(groups) => {
            if groups.len() < 2 {
                return None;
            }
            let mut groups = groups;
            let ghost g = groups@;
            let h = groups.remove(1);
            assert(opt_view(h) == g.map_values(|o: Option<String>| opt_view(o))[1]);
            h
        },
        None => None,
    }
}

/// Whether two byte strings are equal.
fn same_bytes(a: &[u8], b: &[u8]) -> (r: bool)
    ensures
        r == (a@ == b@),
{
    if a.len() != b.len() {
        return false;
    }
    let r = matches_at(a, b, 0);
    assert(a@.subrange(0, b@.len() as int) =~= a@);
    r
}

/// Drops each string whose bytes equal those of the one kept before it.
fn dedup_sorted(v: &Vec<String>) -> (r: Vec<String>)
    requires
        sorted_strings(v@),
    ensures
        forall|h: Seq<char>| views(r@).contains(h) <==> views(v@).contains(h),
        sorted_strings(r@),
        forall|i: int, j: int| 0 <= i < j < r@.len() ==> (#[trigger] r@[i])@ != (#[trigger] r@[j])@,
{
    let mut out: Vec<String> = Vec::new();
    let ghost mut idx: Seq<int> = Seq::empty();
    let ghost mut cov: Seq<int> = Seq::empty();
    let mut i: usize = 0;
    while i < v.len()
        invariant
            i <= v@.len(),
            sorted_strings(v@),
            idx.len() == out@.len(),
            cov.len() == i,
            forall|k: int| 0 <= k < idx.len() ==> 0 <= #[trigger] idx[k] < i && out@[k] == v@[idx[k]],
            forall|a: int, b: int| 0 <= a < b < idx.len() ==> #[trigger] idx[a] < #[trigger] idx[b],
            forall|j: int| 0 <= j < i ==> 0 <= #[trigger] cov[j] < out@.len() && out@[cov[j]]@ == v@[j]@,
            forall|a: int, b: int|
                0 <= a < b < out@.len() ==> encode_utf8((#[trigger] out@[a])@) != encode_utf8((#[trigger] out@[b])@),
        decreases v@.len() - i,
    {
        let x = &v[i];
        let keep = if out.len() == 0 {
            true
        } else {
            !same_bytes(out[out.len() - 1].as_str().as_bytes(), x.as_str().as_bytes())
        };
        if keep {
            proof {
                let n = out@.len() as int;
                assert forall|a: int| 0 <= a < n implies encode_utf8(out@[a]@) != encode_utf8(x@) by {
                    let l = n - 1;
                    if a < l && encode_utf8(out@[a]@) == encode_utf8(x@) {
                        assert(idx[a] < idx[l]);
                        assert(bytes_le(encode_utf8(v@[idx[a]]@), encode_utf8(v@[idx[l]]@)));
                        assert(bytes_le(encode_utf8(v@[idx[l]]@), encode_utf8(v@[i as int]@)));
                        lemma_bytes_le_antisymmetric(encode_utf8(out@[l]@), encode_utf8(x@));
                    }
                }
            }
            out.push(x.clone());
            proof {
                idx = idx.push(i as int);
                cov = cov.push(out@.len() - 1);
            }
        } else {
            proof {
                let l = out@.len() - 1;
                encode_utf8_decode_utf8(out@[l]@);
                encode_utf8_decode_utf8(x@);
                cov = cov.push(l);
            }
        }
        i = i + 1;
    }
    proof {
        assert forall|h: Seq<char>| views(out@).contains(h) <==> views(v@).contains(h) by {
            if views(out@).contains(h) {
                let k = choose|k: int| 0 <= k < views(out@).len() && views(out@)[k] == h;
                assert(views(v@)[idx[k]] == h);
            }
            if views(v@).contains(h) {
                let j = choose|j: int| 0 <= j < views(v@).len() && views(v@)[j] == h;
                assert(views(out@)[cov[j]] == h);
            }
        }
        assert forall|a: int, b: int| 0 <= a < b < out@.len() implies bytes_le(
            encode_utf8((#[trigger] out@[a])@),
            encode_utf8((#[trigger] out@[b])@),
        ) by {
            assert(idx[a] < idx[b]);
        }
        assert forall|a: int, b: int| 0 <= a < b < out@.len() implies (#[trigger] out@[a])@ != (#[trigger] out@[b])@ by {
            if out@[a]@ == out@[b]@ {
                assert(encode_utf8(out@[a]@) == encode_utf8(out@[b]@));
            }
        }
    }
    out
}

/// The hosts of all ingresses of the descriptors, sorted in `str` order and
/// each once.
pub fn collect_hostnames(descriptors: &Vec<ApplicationDescriptor>) -> (r: Vec<String>)
    ensures
        forall|h: Seq<char>| views(r@).contains(h) <==> hosts_of(all_ingresses(table(descriptors@))).contains(h),
        sorted_strings(r@),
        forall|i: int, j: int| 0 <= i < j < r@.len() ==> (#[trigger] r@[i])@ != (#[trigger] r@[j])@,
{
    let ghost t = table(descriptors@);
    let mut all: Vec<String> = Vec::new();
    let mut d: usize = 0;
    while d < descriptors.len()
        invariant
            d <= descriptors@.len(),
            t == table(descriptors@),
            views(all@) == hosts_of(all_ingresses(t.take(d as int))),
        decreases descriptors@.len() - d,
    {
        let ings = &descriptors[d].ingresses;
        let ghost row = t[d as int];
        assert(row == views(ings@));
        let mut i: usize = 0;
        while i < ings.len()
            invariant
                i <= ings@.len(),
                d < descriptors@.len(),
                t == table(descriptors@),
                row == views(ings@),
                row == t[d as int],
                views(all@) == hosts_of(all_ingresses(t.take(d as int)) + row.take(i as int)),
            decreases ings@.len() - i,
        {
            let ghost before = all_ingresses(t.take(d as int)) + row.take(i as int);
            assert(all_ingresses(t.take(d as int)) + row.take(i + 1) =~= before.push(row[i as int]));
            assert(row[i as int] == ings@[i as int]@);
            let ghost after = before.push(row[i as int]);
            assert(after.drop_last() =~= before);
            assert(after.last() == row[i as int]);
            if let Some(h) = ingress_hostname(ings[i].as_str()) {
                all.push(h);
                assert(views(all@) =~= hosts_of(before).push(h@));
            }
            i = i + 1;
        }
        assert(row.take(ings@.len() as int) =~= row);
        assert(t.take(d + 1).drop_last() =~= t.take(d as int));
        d = d + 1;
    }
    assert(t.take(descriptors@.len() as int) =~= t);
    let ghost before_sort = all@;
    sort_strings(&mut all);
    let r = dedup_sorted(&all);
    proof {
        broadcast use vstd::seq_lib::group_to_multiset_ensures;

        assert forall|h: Seq<char>| views(all@).contains(h) <==> views(before_sort).contains(h) by {
            if views(all@).contains(h) {
                let k = choose|k: int| 0 <= k < views(all@).len() && views(all@)[k] == h;
                assert(all@.contains(all@[k]));
                assert(before_sort.to_multiset().count(all@[k]) > 0);
                let j = choose|j: int| 0 <= j < before_sort.len() && before_sort[j] == all@[k];
                assert(views(before_sort)[j] == h);
            }
            if views(before_sort).contains(h) {
                let k = choose|k: int| 0 <= k < views(before_sort).len() && views(before_sort)[k] == h;
                assert(before_sort.contains(before_sort[k]));
                assert(all@.to_multiset().count(before_sort[k]) > 0);
                let j = choose|j: int| 0 <= j < all@.len() && all@[j] == before_sort[k];
                assert(views(all@)[j] == h);
            }
        }
    }
    r
}

} // verus!
