use vstd::prelude::*;

use crate::ranges::VersionRange;
use crate::version::{key_eq, key_le, key_lt, match_at, match_lit, spec_parse, PEP440Version};

verus! {

/// A comparator of a dependency specifier.
#[derive(Debug, Clone, Copy, PartialEq, Eq)]
pub enum Compare {
    Compatible,
    Matching,
    Exclusion,
    LessOrEqual,
    GreaterOrEqual,
    StrictLess,
    StrictGreater,
    ArbitraryEqual,
}

/// The comparator a whole string names.
pub open spec fn compare_spec(t: Seq<char>) -> Option<Compare> {
    if t == seq!['~', '='] {
        Some(Compare::Compatible)
    } else if t == seq!['=', '='] {
        Some(Compare::Matching)
    } else if t == seq!['!', '='] {
        Some(Compare::Exclusion)
    } else if t == seq!['<', '='] {
        Some(Compare::LessOrEqual)
    } else if t == seq!['>', '='] {
        Some(Compare::GreaterOrEqual)
    } else if t == seq!['<'] {
        Some(Compare::StrictLess)
    } else if t == seq!['>'] {
        Some(Compare::StrictGreater)
    } else if t == seq!['=', '=', '='] {
        Some(Compare::ArbitraryEqual)
    } else {
        None
    }
}

impl Compare {
    /// Read a comparator name.
    pub fn from_str(s: &str) -> (r: Result<Compare, ()>)
        ensures
            (r is Ok) == (compare_spec(s@) is Some),
            r is Ok ==> compare_spec(s@) == Some(r->Ok_0),
    {
        proof {
            reveal_strlit("~=");
            reveal_strlit("==");
            reveal_strlit("!=");
            reveal_strlit("<=");
            reveal_strlit(">=");
            reveal_strlit("<");
            reveal_strlit(">");
            reveal_strlit("===");
            assert("~="@ =~= seq!['~', '=']);
            assert("=="@ =~= seq!['=', '=']);
            assert("!="@ =~= seq!['!', '=']);
            assert("<="@ =~= seq!['<', '=']);
            assert(">="@ =~= seq!['>', '=']);
            assert("<"@ =~= seq!['<']);
            assert(">"@ =~= seq!['>']);
            assert("==="@ =~= seq!['=', '=', '=']);
        }
        let n = s.unicode_len();
        proof {
            assert(s@.subrange(0, s@.len() as int) =~= s@);
        }
        if n == 2 && match_lit(s, n, 0, "~=") {
            Ok(Compare::Compatible)
        } else if n == 2 && match_lit(s, n, 0, "==") {
            Ok(Compare::Matching)
        } else if n == 2 && match_lit(s, n, 0, "!=") {
            Ok(Compare::Exclusion)
        } else if n == 2 && match_lit(s, n, 0, "<=") {
            Ok(Compare::LessOrEqual)
        } else if n == 2 && match_lit(s, n, 0, ">=") {
            Ok(Compare::GreaterOrEqual)
        } else if n == 1 && match_lit(s, n, 0, "<") {
            Ok(Compare::StrictLess)
        } else if n == 1 && match_lit(s, n, 0, ">") {
            Ok(Compare::StrictGreater)
        } else if n == 3 && match_lit(s, n, 0, "===") {
            Ok(Compare::ArbitraryEqual)
        } else {
            Err(())
        }
    }
}

/// Whether a version satisfies a comparator against a pinned version.
/// The compatible-release and arbitrary-equality comparators are
/// approximated as plain equality of precedence.
pub open spec fn compare_range_spec(cmp: Compare, v: PEP440Version, w: PEP440Version) -> bool {
    match cmp {
        Compare::GreaterOrEqual => key_le(v, w),
        Compare::LessOrEqual => key_le(w, v),
        Compare::StrictLess => key_lt(w, v),
        Compare::Matching => key_eq(v, w),
        Compare::ArbitraryEqual => key_eq(v, w),
        Compare::Compatible => key_eq(v, w),
        Compare::Exclusion => !key_eq(v, w),
        Compare::StrictGreater => key_lt(v, w),
    }
}

/// The set of versions a comparator admits against a pinned version.
pub fn compare_to_range(cmp: Compare, version: PEP440Version) -> (r: VersionRange)
    ensures
        r.wf(),
        forall|w: PEP440Version| r.contains_spec(w) == compare_range_spec(cmp, version, w),
{
    match cmp {
        Compare::GreaterOrEqual => VersionRange::higher_than(version),
        Compare::LessOrEqual => VersionRange::strictly_lower_than(version).union(
            &VersionRange::exact(version),
        ),
        Compare::StrictLess => VersionRange::strictly_lower_than(version),
        Compare::Matching => VersionRange::exact(version),
        Compare::ArbitraryEqual => VersionRange::exact(version),
        Compare::Compatible => VersionRange::exact(version),
        Compare::Exclusion => VersionRange::exact(version).negate(),
        Compare::StrictGreater => VersionRange::strictly_lower_than(version).union(
            &VersionRange::exact(version),
        ).negate(),
    }
}

/// Whitespace accepted around the parts of a specifier.
pub open spec fn is_space(c: char) -> bool {
    c == ' ' || c == '\t' || c == '\n' || c == '\r'
}

fn is_space_exec(c: char) -> (r: bool)
    ensures
        r == is_space(c),
{
    c == ' ' || c == '\t' || c == '\n' || c == '\r'
}

/// First position at or after `i` that holds no whitespace.
pub open spec fn spaces_end(s: Seq<char>, i: int) -> int
    decreases s.len() - i,
{
    if i < 0 || i >= s.len() {
        i
    } else if !is_space(s[i]) {
        i
    } else {
        spaces_end(s, i + 1)
    }
}

/// First position at or after `i` that holds whitespace.
pub open spec fn nonspace_end(s: Seq<char>, i: int) -> int
    decreases s.len() - i,
{
    if i < 0 || i >= s.len() {
        i
    } else if is_space(s[i]) {
        i
    } else {
        nonspace_end(s, i + 1)
    }
}

fn scan_spaces(s: &str, n: usize, i: usize) -> (r: usize)
    requires
        n == s@.len(),
        i <= n,
    ensures
        r == spaces_end(s@, i as int),
        i <= r <= n,
{
    let mut j = i;
    loop
        invariant
            i <= j <= n,
            n == s@.len(),
            spaces_end(s@, i as int) == spaces_end(s@, j as int),
        decreases n - j,
    {
        if j >= n {
            return j;
        }
        if !is_space_exec(s.get_char(j)) {
            return j;
        }
        j = j + 1;
    }
}

fn scan_nonspaces(s: &str, n: usize, i: usize) -> (r: usize)
    requires
        n == s@.len(),
        i <= n,
    ensures
        r == nonspace_end(s@, i as int),
        i <= r <= n,
{
    let mut j = i;
    loop
        invariant
            i <= j <= n,
            n == s@.len(),
            nonspace_end(s@, i as int) == nonspace_end(s@, j as int),
        decreases n - j,
    {
        if j >= n {
            return j;
        }
        if is_space_exec(s.get_char(j)) {
            return j;
        }
        j = j + 1;
    }
}

/// The comparator opening a specifier, tried in the grammar's order, with
/// its length.
pub open spec fn comparator_at(s: Seq<char>) -> Option<(Compare, int)> {
    if match_at(s, 0, seq!['~', '=']) {
        Some((Compare::Compatible, 2))
    } else if match_at(s, 0, seq!['=', '=']) {
        Some((Compare::Matching, 2))
    } else if match_at(s, 0, seq!['!', '=']) {
        Some((Compare::Exclusion, 2))
    } else if match_at(s, 0, seq!['<', '=']) {
        Some((Compare::LessOrEqual, 2))
    } else if match_at(s, 0, seq!['>', '=']) {
        Some((Compare::GreaterOrEqual, 2))
    } else if match_at(s, 0, seq!['<']) {
        Some((Compare::StrictLess, 1))
    } else if match_at(s, 0, seq!['>']) {
        Some((Compare::StrictGreater, 1))
    } else if match_at(s, 0, seq!['=', '=', '=']) {
        Some((Compare::ArbitraryEqual, 3))
    } else {
        None
    }
}

/// The comparator and version a specifier names.
pub struct SpecifierParts {
    pub cmp: Compare,
    pub version: PEP440Version,
}

/// What a specifier string parses to: a comparator, spaces, a non-empty
/// run up to the next space as the version, then spaces to the end.  A
/// specifier whose version part is not a version is rejected.
pub open spec fn spec_parse_specifier(s: Seq<char>) -> Option<SpecifierParts> {
    match comparator_at(s) {
        None => None,
        Some((cmp, cl)) => {
            let i = spaces_end(s, cl);
            let ve = nonspace_end(s, i);
            if ve == i {
                None
            } else if spaces_end(s, ve) != s.len() {
                None
            } else {
                match spec_parse(s.subrange(i, ve)) {
                    Ok(v) => Some(SpecifierParts { cmp, version: v }),
                    Err(_) => None,
                }
            }
        },
    }
}

/// Parse one comparator/version specifier into the set of versions it
/// admits.
pub fn parse_specifier(spec: &str) -> (r: Option<VersionRange>)
    ensures
        (r is Some) == (spec_parse_specifier(spec@) is Some),
        r is Some ==> ({
            let p = spec_parse_specifier(spec@)->0;
            r->0.wf() && forall|w: PEP440Version|
                r->0.contains_spec(w) == compare_range_spec(p.cmp, p.version, w)
        }),
{
    proof {
        reveal_strlit("~=");
        reveal_strlit("==");
        reveal_strlit("!=");
        reveal_strlit("<=");
        reveal_strlit(">=");
        reveal_strlit("<");
        reveal_strlit(">");
        reveal_strlit("===");
        assert("~="@ =~= seq!['~', '=']);
        assert("=="@ =~= seq!['=', '=']);
        assert("!="@ =~= seq!['!', '=']);
        assert("<="@ =~= seq!['<', '=']);
        assert(">="@ =~= seq!['>', '=']);
        assert("<"@ =~= seq!['<']);
        assert(">"@ =~= seq!['>']);
        assert("==="@ =~= seq!['=', '=', '=']);
    }
    let n = spec.unicode_len();
    let found: Option<(Compare, usize)> = if match_lit(spec, n, 0, "~=") {
        Some((Compare::Compatible, 2))
    } else if match_lit(spec, n, 0, "==") {
        Some((Compare::Matching, 2))
    } else if match_lit(spec, n, 0, "!=") {
        Some((Compare::Exclusion, 2))
    } else if match_lit(spec, n, 0, "<=") {
        Some((Compare::LessOrEqual, 2))
    } else if match_lit(spec, n, 0, ">=") {
        Some((Compare::GreaterOrEqual, 2))
    } else if match_lit(spec, n, 0, "<") {
        Some((Compare::StrictLess, 1))
    } else if match_lit(spec, n, 0, ">") {
        Some((Compare::StrictGreater, 1))
    } else if match_lit(spec, n, 0, "===") {
        Some((Compare::ArbitraryEqual, 3))
    } else {
        None
    };
    match found {
        None => None,
        Some((cmp, cl)) => {
            let i = scan_spaces(spec, n, cl);
            let ve = scan_nonspaces(spec, n, i);
            if ve == i {
                return None;
            }
            if scan_spaces(spec, n, ve) != n {
                return None;
            }
            let vpart = spec.substring_char(i, ve);
            match PEP440Version::from_str(vpart) {
                Ok(v) => Some(compare_to_range(cmp, v)),
                Err(_) => None,
            }
        },
    }
}

/// A character that ends a package name: whitespace or an opening
/// parenthesis.
pub open spec fn is_name_break(c: char) -> bool {
    is_space(c) || c == '('
}

fn is_name_break_exec(c: char) -> (r: bool)
    ensures
        r == is_name_break(c),
{
    is_space_exec(c) || c == '('
}

/// First position at or after `i` that ends a package name.
pub open spec fn name_end(s: Seq<char>, i: int) -> int
    decreases s.len() - i,
{
    if i < 0 || i >= s.len() {
        i
    } else if is_name_break(s[i]) {
        i
    } else {
        name_end(s, i + 1)
    }
}

fn scan_name(s: &str, n: usize, i: usize) -> (r: usize)
    requires
        n == s@.len(),
        i <= n,
    ensures
        r == name_end(s@, i as int),
        i <= r <= n,
{
    let mut j = i;
    loop
        invariant
            i <= j <= n,
            n == s@.len(),
            name_end(s@, i as int) == name_end(s@, j as int),
        decreases n - j,
    {
        if j >= n {
            return j;
        }
        if is_name_break_exec(s.get_char(j)) {
            return j;
        }
        j = j + 1;
    }
}

/// First position at or after `i` that holds a closing parenthesis.
pub open spec fn rparen_end(s: Seq<char>, i: int) -> int
    decreases s.len() - i,
{
    if i < 0 || i >= s.len() {
        i
    } else if s[i] == ')' {
        i
    } else {
        rparen_end(s, i + 1)
    }
}

fn scan_rparen(s: &str, n: usize, i: usize) -> (r: usize)
    requires
        n == s@.len(),
        i <= n,
    ensures
        r == rparen_end(s@, i as int),
        i <= r <= n,
{
    let mut j = i;
    loop
        invariant
            i <= j <= n,
            n == s@.len(),
            rparen_end(s@, i as int) == rparen_end(s@, j as int),
        decreases n - j,
    {
        if j >= n {
            return j;
        }
        if s.get_char(j) == ')' {
            return j;
        }
        j = j + 1;
    }
}

/// First comma at or after `i`, looking no further than `k`.
pub open spec fn chunk_end(s: Seq<char>, i: int, k: int) -> int
    decreases k - i,
{
    if i < 0 || i >= k || i >= s.len() {
        i
    } else if s[i] == ',' {
        i
    } else {
        chunk_end(s, i + 1, k)
    }
}

pub proof fn lemma_chunk_end(s: Seq<char>, i: int, k: int)
    requires
        0 <= i <= k <= s.len(),
    ensures
        i <= chunk_end(s, i, k) <= k,
    decreases k - i,
{
    if i < k && s[i] != ',' {
        lemma_chunk_end(s, i + 1, k);
    }
}

fn scan_chunk(s: &str, i: usize, k: usize) -> (r: usize)
    requires
        k <= s@.len(),
        i <= k,
    ensures
        r == chunk_end(s@, i as int, k as int),
        i <= r <= k,
{
    let mut j = i;
    loop
        invariant
            i <= j <= k,
            k <= s@.len(),
            chunk_end(s@, i as int, k as int) == chunk_end(s@, j as int, k as int),
        decreases k - j,
    {
        if j >= k {
            return j;
        }
        if s.get_char(j) == ',' {
            return j;
        }
        j = j + 1;
    }
}

/// The conjunction of the comma-separated specifiers in `s[i, k)`: each
/// chunk that parses constrains the version, and a chunk that does not
/// parse constrains nothing.
pub open spec fn specs_sem(s: Seq<char>, i: int, k: int, w: PEP440Version) -> bool
    decreases k - i when 0 <= i <= k <= s.len() via specs_sem_dec
{
    let c = chunk_end(s, i, k);
    (match spec_parse_specifier(s.subrange(i, c)) {
        Some(p) => compare_range_spec(p.cmp, p.version, w),
        None => true,
    }) && (if c < k {
        specs_sem(s, c + 1, k, w)
    } else {
        true
    })
}

#[via_fn]
proof fn specs_sem_dec(s: Seq<char>, i: int, k: int, w: PEP440Version) {
    lemma_chunk_end(s, i, k);
}

/// Every comma-separated chunk in `s[i, k)` parses as a specifier.
pub open spec fn specs_ok(s: Seq<char>, i: int, k: int) -> bool
    decreases k - i when 0 <= i <= k <= s.len() via specs_ok_dec
{
    let c = chunk_end(s, i, k);
    (spec_parse_specifier(s.subrange(i, c)) is Some) && (if c < k {
        specs_ok(s, c + 1, k)
    } else {
        true
    })
}

#[via_fn]
proof fn specs_ok_dec(s: Seq<char>, i: int, k: int) {
    lemma_chunk_end(s, i, k);
}

/// Where the parts of a dependency line lie: the package name, and the
/// bounds of the parenthesised specifier list when one is present.
pub struct DepParts {
    pub name_end: int,
    pub specs: Option<(int, int)>,
}

/// What a dependency line parses to: a leading name, an optional
/// parenthesised specifier list whose every chunk must parse, and nothing
/// else.  A line that carries an extra-marker after a semicolon, or whose
/// specifier list holds a malformed chunk, or that does not fit the
/// grammar, produces no entry.
pub open spec fn spec_parse_dependency(s: Seq<char>) -> Option<DepParts> {
    let ne = name_end(s, 0);
    if ne == 0 {
        None
    } else {
        let i1 = spaces_end(s, ne);
        let has_colon = i1 < s.len() && s[i1] == ':';
        let p0 = if has_colon {
            i1 + 1
        } else {
            i1
        };
        if p0 < s.len() && s[p0] == '(' {
            let k = rparen_end(s, p0 + 1);
            if k >= s.len() {
                None
            } else if k == p0 + 1 {
                None
            } else if !specs_ok(s, p0 + 1, k) {
                None
            } else {
                let t = spaces_end(s, k + 1);
                if t == s.len() {
                    Some(DepParts { name_end: ne, specs: Some((p0 + 1, k)) })
                } else {
                    None
                }
            }
        } else if has_colon {
            None
        } else {
            let t = spaces_end(s, i1);
            if t == s.len() {
                Some(DepParts { name_end: ne, specs: None })
            } else {
                None
            }
        }
    }
}

/// Does a parsed dependency hand back exactly the captured name, and a
/// range admitting exactly the versions every parsed specifier admits?
pub open spec fn dep_matches(s: Seq<char>, p: (String, VersionRange)) -> bool {
    let d = spec_parse_dependency(s)->0;
    &&& p.0@ == s.subrange(0, d.name_end)
    &&& p.1.wf()
    &&& forall|w: PEP440Version|
        p.1.contains_spec(w) == (match d.specs {
            Some((a, b)) => specs_sem(s, a, b, w),
            None => true,
        })
}

/// Parse a dependency line into its package name and the set of versions
/// it admits.
#[verifier::loop_isolation(false)]
pub fn parse_dependency(versions: &str) -> (r: Option<(String, VersionRange)>)
    ensures
        (r is Some) == (spec_parse_dependency(versions@) is Some),
        r is Some ==> dep_matches(versions@, r->0),
{
    let n = versions.unicode_len();
    let ne = scan_name(versions, n, 0);
    if ne == 0 {
        return None;
    }
    let i1 = scan_spaces(versions, n, ne);
    let has_colon = i1 < n && versions.get_char(i1) == ':';
    let p0 = if has_colon {
        i1 + 1
    } else {
        i1
    };
    let name = versions.substring_char(0, ne).to_owned();
    if p0 < n && versions.get_char(p0) == '(' {
        let k = scan_rparen(versions, n, p0 + 1);
        if k >= n {
            return None;
        }
        if k == p0 + 1 {
            return None;
        }
        let t = scan_spaces(versions, n, k + 1);
        if t != n {
            return None;
        }
        let ghost a = (p0 + 1) as int;
        let ghost b = k as int;
        let mut rng = VersionRange::any();
        let mut i = p0 + 1;
        loop
            invariant
                n == versions@.len(),
                p0 + 1 <= i <= k,
                k < n,
                rng.wf(),
                a == p0 + 1,
                b == k as int,
                forall|w: PEP440Version|
                    specs_sem(versions@, a, b, w) == (rng.contains_spec(w) && specs_sem(
                        versions@,
                        i as int,
                        b,
                        w,
                    )),
                specs_ok(versions@, a, b) == specs_ok(versions@, i as int, b),
            decreases k - i,
        {
            let c = scan_chunk(versions, i, k);
            let chunk = versions.substring_char(i, c);
            let ghost rng0 = rng;
            let piece = parse_specifier(chunk);
            match piece {
                Some(pr) => {
                    rng = rng.intersection(&pr);
                },
                None => {
                    // A malformed chunk fails the whole line.
                    proof {
                        assert(chunk_end(versions@, i as int, b) == c as int);
                        assert(!specs_ok(versions@, i as int, b));
                        assert(spec_parse_dependency(versions@) is None);
                    }
                    return None;
                },
            }
            proof {
                assert forall|w: PEP440Version|
                    specs_sem(versions@, a, b, w) == (rng.contains_spec(w) && (if (c as int) < b {
                        specs_sem(versions@, c as int + 1, b, w)
                    } else {
                        true
                    })) by {
                    assert(specs_sem(versions@, a, b, w) == (rng0.contains_spec(w) && specs_sem(
                        versions@,
                        i as int,
                        b,
                        w,
                    )));
                    assert(chunk_end(versions@, i as int, b) == c as int);
                    assert(specs_sem(versions@, i as int, b, w) == ((match spec_parse_specifier(
                        versions@.subrange(i as int, c as int),
                    ) {
                        Some(p) => compare_range_spec(p.cmp, p.version, w),
                        None => true,
                    }) && (if (c as int) < b {
                        specs_sem(versions@, c as int + 1, b, w)
                    } else {
                        true
                    })));
                    match piece {
                        Some(pr2) => {
                            assert(rng.contains_spec(w) == (rng0.contains_spec(w)
                                && pr2.contains_spec(w)));
                            assert(pr2.contains_spec(w) == compare_range_spec(
                                spec_parse_specifier(chunk@)->0.cmp,
                                spec_parse_specifier(chunk@)->0.version,
                                w,
                            ));
                        },
                        None => {
                            assert(rng == rng0);
                        },
                    }
                }
            }
            if c < k {
                i = c + 1;
                proof {
                    assert forall|w: PEP440Version|
                        specs_sem(versions@, a, b, w) == (rng.contains_spec(w) && specs_sem(
                            versions@,
                            i as int,
                            b,
                            w,
                        )) by {
                        assert(specs_sem(versions@, a, b, w) == (rng.contains_spec(w) && (if (
                        c as int) < b {
                            specs_sem(versions@, c as int + 1, b, w)
                        } else {
                            true
                        })));
                    }
                }
            } else {
                proof {
                    assert forall|w: PEP440Version|
                        specs_sem(versions@, a, b, w) == rng.contains_spec(w) by {
                        assert(specs_sem(versions@, a, b, w) == (rng.contains_spec(w) && (if (
                        c as int) < b {
                            specs_sem(versions@, c as int + 1, b, w)
                        } else {
                            true
                        })));
                    }
                    assert(spec_parse_dependency(versions@) is Some);
                    let d = spec_parse_dependency(versions@)->0;
                    assert(d.name_end == ne && d.specs == Some((a, b)));
                }
                return Some((name, rng));
            }
        }
    } else if has_colon {
        None
    } else {
        let t = scan_spaces(versions, n, i1);
        if t != n {
            return None;
        }
        Some((name, VersionRange::any()))
    }
}

} // verus!
