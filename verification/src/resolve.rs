//! Hostname handling: parsing the textual output of a reverse-DNS lookup
//! and the resolver-echo rule. The lookup itself is external I/O performed
//! by the application; this module decides what, if anything, its text says.

use vstd::prelude::*;
use vstd::string::StrSliceExecFns;

verus! {

/// The marker preceding the hostname in reverse-lookup output
/// ("W.X.Y.Z.in-addr.arpa domain name pointer hostname.").
pub open spec fn ptr_marker() -> Seq<char> {
    "domain name pointer "@
}

/// The text before the first line break.
pub open spec fn first_line(s: Seq<char>) -> Seq<char>
    decreases s.len(),
{
    if s.len() == 0 {
        s
    } else if s[0] == '\n' {
        Seq::empty()
    } else {
        seq![s[0]] + first_line(s.drop_first())
    }
}

/// The marker occurs in `s` at position `i`.
pub open spec fn marker_at(s: Seq<char>, i: int) -> bool {
    &&& 0 <= i
    &&& i + ptr_marker().len() <= s.len()
    &&& s.subrange(i, i + ptr_marker().len() as int) == ptr_marker()
}

/// `s` without its trailing dots.
pub open spec fn trim_dots(s: Seq<char>) -> Seq<char>
    decreases s.len(),
{
    if s.len() > 0 && s.last() == '.' {
        trim_dots(s.drop_last())
    } else {
        s
    }
}

/// A scan that stops at the first line break (or the end) has read exactly
/// the first line.
proof fn lemma_first_line(s: Seq<char>, nl: int)
    requires
        0 <= nl <= s.len(),
        forall|k: int| 0 <= k < nl ==> s[k] != '\n',
        nl == s.len() || s[nl] == '\n',
    ensures
        first_line(s) == s.take(nl),
    decreases s.len(),
{
    if s.len() == 0 {
        assert(s.take(0) =~= s);
    } else if s[0] == '\n' {
        assert(nl == 0);
        assert(s.take(0) =~= Seq::<char>::empty());
    } else {
        assert(nl >= 1);
        let t = s.drop_first();
        assert(forall|k: int| 0 <= k < nl - 1 ==> t[k] == s[k + 1]);
        lemma_first_line(t, nl - 1);
        assert(seq![s[0]] + t.take(nl - 1) =~= s.take(nl));
    }
}

/// A scan that strips dots from the end down to position `e` has computed
/// the dot-trimmed text.
proof fn lemma_trim_dots(s: Seq<char>, e: int)
    requires
        0 <= e <= s.len(),
        forall|k: int| e <= k < s.len() ==> s[k] == '.',
        e == 0 || s[e - 1] != '.',
    ensures
        trim_dots(s) == s.take(e),
    decreases s.len(),
{
    if s.len() == 0 {
        assert(s.take(0) =~= s);
    } else if s.last() == '.' {
        assert(e < s.len()) by {
            if e == s.len() {
                assert(s[e - 1] == s.last());
            }
        }
        let t = s.drop_last();
        lemma_trim_dots(t, e);
        assert(t.take(e) =~= s.take(e));
    } else {
        assert(e == s.len()) by {
            if e < s.len() {
                assert(s[s.len() - 1] == '.');
            }
        }
        assert(s.take(e) =~= s);
    }
}

/// Locate the first occurrence of the marker in a line.
fn find_marker(line: &str) -> (r: Option<usize>)
    ensures
        r matches Some(i) ==> marker_at(line@, i as int) && (forall|j: int|
            0 <= j < i ==> !marker_at(line@, j)),
        r is None ==> forall|j: int| !marker_at(line@, j),
{
    proof {
        reveal_strlit("domain name pointer ");
    }
    let marker = "domain name pointer ";
    let n = line.unicode_len();
    let m = marker.unicode_len();
    if n < m {
        return None;
    }
    let mut i: usize = 0;
    while i <= n - m
        invariant
            n == line@.len(),
            m == ptr_marker().len(),
            marker@ == ptr_marker(),
            m <= n,
            i <= n - m + 1,
            forall|j: int| 0 <= j < i ==> !marker_at(line@, j),
        decreases n + 1 - i,
    {
        let mut j: usize = 0;
        let mut ok = true;
        while ok && j < m
            invariant
                n == line@.len(),
                m == ptr_marker().len(),
                marker@ == ptr_marker(),
                m <= n,
                i <= n - m,
                j <= m,
                ok ==> forall|k: int| 0 <= k < j ==> line@[i + k] == ptr_marker()[k],
                !ok ==> exists|k: int| 0 <= k < m && line@[i + k] != ptr_marker()[k],
            decreases m - j + (if ok { 1int } else { 0int }),
        {
            if line.get_char(i + j) != marker.get_char(j) {
                assert(line@[i + j] != ptr_marker()[j as int]);
                ok = false;
            } else {
                j = j + 1;
            }
        }
        if ok {
            proof {
                assert(line@.subrange(i as int, i + m as int) =~= ptr_marker());
            }
            return Some(i);
        }
        proof {
            assert(!marker_at(line@, i as int)) by {
                let k = choose|k: int| 0 <= k < m && line@[i + k] != ptr_marker()[k];
                if marker_at(line@, i as int) {
                    assert(line@.subrange(i as int, i + m as int)[k] == line@[i + k]);
                }
            }
        }
        i = i + 1;
    }
    proof {
        assert forall|j: int| !marker_at(line@, j) by {
            if j >= i {
                assert(j + m > n);
            }
        }
    }
    None
}

/// Extract the hostname from reverse-lookup text: on the first line, the
/// text after the first marker, with trailing dots removed. Yields nothing
/// when the first line carries no marker.
pub fn parse_reverse_lookup(output: &str) -> (r: Option<String>)
    ensures
        ({
            let line = first_line(output@);
            &&& (r matches Some(h) ==> exists|i: int|
                marker_at(line, i) && (forall|j: int| 0 <= j < i ==> !marker_at(line, j)) && h@
                    == trim_dots(line.subrange(i + ptr_marker().len() as int, line.len() as int)))
            &&& (r is None ==> forall|j: int| !marker_at(line, j))
        }),
{
    let n = output.unicode_len();
    let mut nl: usize = 0;
    while nl < n && output.get_char(nl) != '\n'
        invariant
            n == output@.len(),
            nl <= n,
            forall|k: int| 0 <= k < nl ==> output@[k] != '\n',
        decreases n - nl,
    {
        nl = nl + 1;
    }
    let line = output.substring_char(0, nl);
    proof {
        lemma_first_line(output@, nl as int);
        assert(line@ == first_line(output@));
    }
    match find_marker(line) {
        Some(i) => {
            let llen = line.unicode_len();
            let mlen = "domain name pointer ".unicode_len();
            assert(i + mlen <= llen);
            let rest = line.substring_char(i + mlen, llen);
            let rlen = rest.unicode_len();
            let mut e: usize = rlen;
            while e > 0 && rest.get_char(e - 1) == '.'
                invariant
                    rlen == rest@.len(),
                    e <= rlen,
                    forall|k: int| e <= k < rlen ==> rest@[k] == '.',
                decreases e,
            {
                e = e - 1;
            }
            let trimmed = rest.substring_char(0, e);
            proof {
                lemma_trim_dots(rest@, e as int);
                assert(trimmed@ == trim_dots(
                    line@.subrange(i + ptr_marker().len() as int, line@.len() as int),
                ));
            }
            Some(trimmed.to_owned())
        },
        None => None,
    }
}

/// The echo rule: a resolved name equal to the literal address text conveys
/// nothing and is treated as absent; an absent name stays absent.
pub fn filter_resolved(ip: &String, resolved: Option<String>) -> (r: Option<String>)
    ensures
        resolved matches Some(name) && name@ != ip@ ==> r == resolved,
        resolved matches Some(name) && name@ == ip@ ==> r is None,
        resolved is None ==> r is None,
{
    match resolved {
        Some(name) => {
            if name.eq(ip) {
                None
            } else {
                Some(name)
            }
        },
        None => None,
    }
}

/// Decide the hostname for `ip` from reverse-lookup text: the name the text
/// spells, unless there is none or it merely echoes the address.
pub fn hostname_from_lookup(ip: &String, output: &str) -> (r: Option<String>)
    ensures
        ({
            let line = first_line(output@);
            &&& (r matches Some(h) ==> h@ != ip@ && exists|i: int|
                marker_at(line, i) && (forall|j: int| 0 <= j < i ==> !marker_at(line, j)) && h@
                    == trim_dots(line.subrange(i + ptr_marker().len() as int, line.len() as int)))
            &&& (r is None ==> (forall|j: int| !marker_at(line, j)) || (exists|i: int|
                marker_at(line, i) && (forall|j: int| 0 <= j < i ==> !marker_at(line, j)) && ip@
                    == trim_dots(line.subrange(i + ptr_marker().len() as int, line.len() as int))))
        }),
{
    let parsed = parse_reverse_lookup(output);
    filter_resolved(ip, parsed)
}

} // verus!
