//! Resolution of address strings into a root hive plus subpath.
//!
//! An address has the shape `<hive token>\<segment>\<segment>...`. The first
//! segment names one of the five root hives, by its canonical name or one of
//! its short aliases, matched without regard to ASCII letter case. Everything
//! after the first separator is the subpath; it is normalized so that it
//! neither begins nor ends with a separator. An empty subpath addresses the
//! hive root itself. Beyond the hive token, no validation of subpath
//! characters happens here: a malformed segment is the store's error to
//! report, not the resolver's.

use vstd::prelude::*;
use vstd::string::*;

use crate::error::RegError;

verus! {

/// The five fixed roots of the hierarchical store.
#[derive(Clone, Copy, PartialEq, Eq, Structural, Debug)]
pub enum RootHiveId {
    LocalMachine,
    CurrentUser,
    ClassesRoot,
    Users,
    CurrentConfig,
}

/// The path separator between the segments of an address.
pub open spec fn is_sep(c: char) -> bool {
    c == '\\'
}

/// The code of a character with ASCII lowercase letters folded to uppercase.
pub open spec fn upper_code(c: char) -> int {
    let u = c as u32;
    if 97 <= u && u <= 122 {
        u - 32
    } else {
        u as int
    }
}

/// A character sequence with ASCII lowercase letters folded to uppercase.
pub open spec fn upper_codes(s: Seq<char>) -> Seq<int> {
    s.map_values(|c: char| upper_code(c))
}

/// Equality of two character sequences up to ASCII letter case.
pub open spec fn ci_eq(a: Seq<char>, b: Seq<char>) -> bool {
    upper_codes(a) == upper_codes(b)
}

/// The hive a token denotes: its canonical name or one of its aliases, in
/// any ASCII letter case. `None` for every other token.
pub open spec fn spec_hive_of(token: Seq<char>) -> Option<RootHiveId> {
    if ci_eq(token, "HKEY_LOCAL_MACHINE"@) || ci_eq(token, "HKLM"@) {
        Some(RootHiveId::LocalMachine)
    } else if ci_eq(token, "HKEY_CURRENT_USER"@) || ci_eq(token, "HKCU"@) {
        Some(RootHiveId::CurrentUser)
    } else if ci_eq(token, "HKEY_CLASSES_ROOT"@) || ci_eq(token, "HKCR"@) {
        Some(RootHiveId::ClassesRoot)
    } else if ci_eq(token, "HKEY_USERS"@) || ci_eq(token, "HKU"@) {
        Some(RootHiveId::Users)
    } else if ci_eq(token, "HKEY_CURRENT_CONFIG"@) || ci_eq(token, "HKCC"@) {
        Some(RootHiveId::CurrentConfig)
    } else {
        None
    }
}

/// Two tokens equal up to ASCII letter case denote the same hive, or both
/// denote none: the alias table is case-insensitive through and through.
pub proof fn lemma_hive_case_insensitive(t1: Seq<char>, t2: Seq<char>)
    requires
        ci_eq(t1, t2),
    ensures
        spec_hive_of(t1) == spec_hive_of(t2),
{
}

/// `i` is the position of the first separator of `s`.
pub open spec fn is_first_sep_at(s: Seq<char>, i: int) -> bool {
    &&& 0 <= i < s.len()
    &&& is_sep(s[i])
    &&& forall|j: int| 0 <= j < i ==> !is_sep(s[j])
}

/// `s` contains a separator.
pub open spec fn has_sep(s: Seq<char>) -> bool {
    exists|i: int| is_first_sep_at(s, i)
}

/// The position of the first separator of `s`; meaningful only under
/// `has_sep(s)`.
pub open spec fn first_sep(s: Seq<char>) -> int {
    choose|i: int| is_first_sep_at(s, i)
}

proof fn lemma_first_sep_unique(s: Seq<char>, i: int)
    requires
        is_first_sep_at(s, i),
    ensures
        first_sep(s) == i,
{
    let j = first_sep(s);
    assert(is_first_sep_at(s, j));
    if i < j {
        assert(!is_sep(s[i]));
    }
    if j < i {
        assert(!is_sep(s[j]));
    }
}

/// The hive token of an address: everything before the first separator, or
/// the whole address when it has none.
pub open spec fn token_of(s: Seq<char>) -> Seq<char> {
    if has_sep(s) {
        s.take(first_sep(s))
    } else {
        s
    }
}

/// The raw remainder of an address after the first separator; empty when the
/// address has no separator.
pub open spec fn rest_of(s: Seq<char>) -> Seq<char> {
    if has_sep(s) {
        s.skip(first_sep(s) + 1)
    } else {
        Seq::empty()
    }
}

/// `s` with every leading separator removed.
pub open spec fn trim_leading(s: Seq<char>) -> Seq<char>
    decreases s.len(),
{
    if s.len() > 0 && is_sep(s[0]) {
        trim_leading(s.skip(1))
    } else {
        s
    }
}

/// `s` with every trailing separator removed.
pub open spec fn trim_trailing(s: Seq<char>) -> Seq<char>
    decreases s.len(),
{
    if s.len() > 0 && is_sep(s.last()) {
        trim_trailing(s.drop_last())
    } else {
        s
    }
}

/// `s` with leading and trailing separators removed.
pub open spec fn trimmed(s: Seq<char>) -> Seq<char> {
    trim_trailing(trim_leading(s))
}

proof fn lemma_trim_leading_skip(s: Seq<char>, k: int)
    requires
        0 <= k <= s.len(),
        forall|j: int| 0 <= j < k ==> is_sep(s[j]),
    ensures
        trim_leading(s) == trim_leading(s.skip(k)),
    decreases k,
{
    if k > 0 {
        assert(trim_leading(s) == trim_leading(s.skip(1)));
        lemma_trim_leading_skip(s.skip(1), k - 1);
        assert(s.skip(1).skip(k - 1) =~= s.skip(k));
    } else {
        assert(s.skip(0) =~= s);
    }
}

proof fn lemma_trim_trailing_take(s: Seq<char>, k: int)
    requires
        0 <= k <= s.len(),
        forall|j: int| k <= j < s.len() ==> is_sep(s[j]),
    ensures
        trim_trailing(s) == trim_trailing(s.take(k)),
    decreases s.len() - k,
{
    if k < s.len() {
        assert(is_sep(s.last()));
        assert(trim_trailing(s) == trim_trailing(s.drop_last()));
        assert(s.drop_last() =~= s.take(s.len() - 1));
        lemma_trim_trailing_take(s.take(s.len() - 1), k);
        assert(s.take(s.len() - 1).take(k) =~= s.take(k));
    } else {
        assert(s.take(s.len() as int) =~= s);
    }
}

/// The subpath segments of `s`: the separator-delimited pieces, in order.
/// Interior empty pieces are kept; the store, not the resolver, decides what
/// to make of them.
pub open spec fn split_sep(s: Seq<char>) -> Seq<Seq<char>>
    decreases s.len(),
{
    if !has_sep(s) {
        seq![s]
    } else {
        seq![s.take(first_sep(s))] + split_sep(s.skip(first_sep(s) + 1))
    }
}

/// The segments of a normalized subpath; an empty subpath has none.
pub open spec fn segments_of(s: Seq<char>) -> Seq<Seq<char>> {
    if s.len() == 0 {
        Seq::empty()
    } else {
        split_sep(s)
    }
}

/// The views of a vector of segment strings.
pub open spec fn segs_view(ss: Seq<String>) -> Seq<Seq<char>> {
    ss.map_values(|s: String| s@)
}

/// What resolution yields on a given address: the hive its token denotes and
/// the normalized subpath, or nothing when the token denotes no hive.
pub open spec fn spec_resolve(s: Seq<char>) -> Option<(RootHiveId, Seq<char>)> {
    match spec_hive_of(token_of(s)) {
        Some(root) => Some((root, trimmed(rest_of(s)))),
        None => None,
    }
}

/// A resolved address: one of the five root hives together with the path of
/// the key below it. Built by `resolve`; `segments` carries the
/// separator-split pieces of `subpath` so that the store never re-parses the
/// string.
#[derive(Debug)]
pub struct RegistryAddress {
    pub root: RootHiveId,
    pub subpath: String,
    pub segments: Vec<String>,
}

impl RegistryAddress {
    /// The segments are exactly the separator-split pieces of the subpath.
    pub open spec fn wf(self) -> bool {
        segs_view(self.segments@) == segments_of(self.subpath@)
    }

    /// The view of this address: its root and its segment sequence.
    pub open spec fn path_view(self) -> (RootHiveId, Seq<Seq<char>>) {
        (self.root, segs_view(self.segments@))
    }
}

/// Compare two strings for equality up to ASCII letter case.
fn eq_ignore_ascii_case(a: &str, b: &str) -> (r: bool)
    ensures
        r == ci_eq(a@, b@),
{
    let alen = a.unicode_len();
    let blen = b.unicode_len();
    if alen != blen {
        assert(upper_codes(a@).len() != upper_codes(b@).len());
        return false;
    }
    let mut i: usize = 0;
    while i < alen
        invariant
            alen == a@.len(),
            blen == b@.len(),
            alen == blen,
            i <= alen,
            forall|j: int| 0 <= j < i ==> upper_code(a@[j]) == upper_code(b@[j]),
        decreases alen - i,
    {
        let ca = a.get_char(i) as u32;
        let cb = b.get_char(i) as u32;
        let ua: u32 = if 97 <= ca && ca <= 122 {
            ca - 32
        } else {
            ca
        };
        let ub: u32 = if 97 <= cb && cb <= 122 {
            cb - 32
        } else {
            cb
        };
        if ua != ub {
            assert(upper_codes(a@)[i as int] != upper_codes(b@)[i as int]);
            return false;
        }
        i += 1;
    }
    proof {
        assert(upper_codes(a@) =~= upper_codes(b@));
    }
    true
}

/// The hive a token names, or `None` when it matches no canonical name and
/// no alias in any ASCII letter case.
pub fn hive_from_token(token: &str) -> (r: Option<RootHiveId>)
    ensures
        r == spec_hive_of(token@),
{
    if eq_ignore_ascii_case(token, "HKEY_LOCAL_MACHINE") || eq_ignore_ascii_case(token, "HKLM") {
        Some(RootHiveId::LocalMachine)
    } else if eq_ignore_ascii_case(token, "HKEY_CURRENT_USER") || eq_ignore_ascii_case(
        token,
        "HKCU",
    ) {
        Some(RootHiveId::CurrentUser)
    } else if eq_ignore_ascii_case(token, "HKEY_CLASSES_ROOT") || eq_ignore_ascii_case(
        token,
        "HKCR",
    ) {
        Some(RootHiveId::ClassesRoot)
    } else if eq_ignore_ascii_case(token, "HKEY_USERS") || eq_ignore_ascii_case(token, "HKU") {
        Some(RootHiveId::Users)
    } else if eq_ignore_ascii_case(token, "HKEY_CURRENT_CONFIG") || eq_ignore_ascii_case(
        token,
        "HKCC",
    ) {
        Some(RootHiveId::CurrentConfig)
    } else {
        None
    }
}

/// Parse an address string into a resolved address.
///
/// The token before the first separator picks the root hive,
/// case-insensitively against the canonical names and aliases; any other
/// token — the empty string included — is rejected with `InvalidHive` naming
/// the offending token. The remainder becomes the subpath, with leading and
/// trailing separators stripped; when nothing remains the subpath is empty
/// and the address names the hive root itself.
pub fn resolve(address: &str) -> (r: Result<RegistryAddress, RegError>)
    ensures
        match r {
            Ok(a) => {
                &&& spec_resolve(address@) is Some
                &&& a.root == spec_resolve(address@)->Some_0.0
                &&& a.subpath@ == spec_resolve(address@)->Some_0.1
                &&& a.wf()
            },
            Err(e) => {
                &&& spec_resolve(address@) is None
                &&& e matches RegError::InvalidHive { token } && token@ == token_of(address@)
            },
        },
{
    let n = address.unicode_len();
    let mut i: usize = 0;
    let mut found = false;
    while !found && i < n
        invariant
            n == address@.len(),
            i <= n,
            forall|j: int| 0 <= j < i ==> !is_sep(address@[j]),
            found ==> is_first_sep_at(address@, i as int),
        decreases n - i, (if found { 0int } else { 1int }),
    {
        if address.get_char(i) == '\\' {
            found = true;
        } else {
            i += 1;
        }
    }
    proof {
        if found {
            lemma_first_sep_unique(address@, i as int);
        } else {
            assert(forall|k: int| !is_first_sep_at(address@, k));
        }
    }
    let token: &str = if found {
        address.substring_char(0, i)
    } else {
        address
    };
    assert(token@ == token_of(address@));
    let root = match hive_from_token(token) {
        Some(root) => root,
        None => {
            return Err(RegError::InvalidHive { token: token.to_owned() });
        },
    };
    let rest: &str = if found {
        address.substring_char(i + 1, n)
    } else {
        ""
    };
    proof {
        if found {
            assert(rest@ =~= rest_of(address@));
        } else {
            reveal_strlit("");
            assert(rest@ =~= rest_of(address@));
        }
    }
    let rn = rest.unicode_len();

    // Strip leading separators of the remainder.
    let mut lo: usize = 0;
    let mut lo_done = false;
    while !lo_done && lo < rn
        invariant
            rn == rest@.len(),
            lo <= rn,
            forall|j: int| 0 <= j < lo ==> is_sep(rest@[j]),
            lo_done ==> lo < rn && !is_sep(rest@[lo as int]),
        decreases rn - lo, (if lo_done { 0int } else { 1int }),
    {
        if rest.get_char(lo) == '\\' {
            lo += 1;
        } else {
            lo_done = true;
        }
    }
    proof {
        lemma_trim_leading_skip(rest@, lo as int);
        assert(trim_leading(rest@) == rest@.skip(lo as int));
    }

    // Strip trailing separators of the remainder.
    let mut hi: usize = rn;
    let mut hi_done = false;
    while !hi_done && hi > lo
        invariant
            rn == rest@.len(),
            lo <= hi <= rn,
            forall|j: int| hi <= j < rn ==> is_sep(rest@[j]),
            hi_done ==> hi > lo && !is_sep(rest@[hi - 1]),
        decreases hi - lo, (if hi_done { 0int } else { 1int }),
    {
        if rest.get_char(hi - 1) == '\\' {
            hi -= 1;
        } else {
            hi_done = true;
        }
    }
    proof {
        let t = rest@.skip(lo as int);
        lemma_trim_trailing_take(t, hi - lo);
        assert(t.take(hi - lo) =~= rest@.subrange(lo as int, hi as int));
        assert(trimmed(rest_of(address@)) == rest@.subrange(lo as int, hi as int));
    }

    let subpath_str: &str = rest.substring_char(lo, hi);
    let subpath: String = subpath_str.to_owned();
    let m = subpath_str.unicode_len();

    // Split the normalized subpath into its segments.
    let mut segments: Vec<String> = Vec::new();
    if m > 0 {
        proof {
            assert(subpath_str@.skip(0) =~= subpath_str@);
            assert(segs_view(segments@) + split_sep(subpath_str@) =~= split_sep(subpath_str@));
        }
        let mut start: usize = 0;
        let mut k: usize = 0;
        while k < m
            invariant
                m == subpath_str@.len(),
                start <= k <= m,
                forall|j: int| start <= j < k ==> !is_sep(subpath_str@[j]),
                split_sep(subpath_str@) == segs_view(segments@) + split_sep(
                    subpath_str@.skip(start as int),
                ),
            decreases m - k,
        {
            if subpath_str.get_char(k) == '\\' {
                let seg: String = subpath_str.substring_char(start, k).to_owned();
                proof {
                    let u = subpath_str@.skip(start as int);
                    assert(is_first_sep_at(u, k - start));
                    lemma_first_sep_unique(u, k - start);
                    assert(u.take(k - start) =~= subpath_str@.subrange(start as int, k as int));
                    assert(u.skip(k - start + 1) =~= subpath_str@.skip(k + 1));
                    assert(split_sep(u) == seq![seg@] + split_sep(subpath_str@.skip(k + 1)));
                }
                let ghost old_segments = segments@;
                segments.push(seg);
                proof {
                    assert(segs_view(segments@) =~= segs_view(old_segments) + seq![seg@]);
                    assert(segs_view(old_segments) + (seq![seg@] + split_sep(
                        subpath_str@.skip(k + 1),
                    )) =~= (segs_view(old_segments) + seq![seg@]) + split_sep(
                        subpath_str@.skip(k + 1),
                    ));
                }
                start = k + 1;
            }
            k += 1;
        }
        let seg: String = subpath_str.substring_char(start, m).to_owned();
        proof {
            let u = subpath_str@.skip(start as int);
            assert(forall|j: int| 0 <= j < u.len() ==> !is_sep(u[j]));
            assert(forall|j: int| !is_first_sep_at(u, j));
            assert(!has_sep(u));
            assert(u =~= subpath_str@.subrange(start as int, m as int));
            assert(split_sep(u) == seq![seg@]);
        }
        let ghost old_segments = segments@;
        segments.push(seg);
        proof {
            assert(segs_view(segments@) =~= segs_view(old_segments) + seq![seg@]);
            assert(segs_view(segments@) == segments_of(subpath@));
        }
    } else {
        proof {
            assert(segs_view(segments@) =~= Seq::<Seq<char>>::empty());
        }
    }

    Ok(RegistryAddress { root, subpath, segments })
}

} // verus!
