use vstd::prelude::*;

verus! {

/// The kind of pre-release marker a version may carry.
#[derive(Debug, Clone, Copy, PartialEq, Eq)]
pub enum Prerelease {
    Alpha,
    Beta,
    ReleaseCandidate,
}

/// Error creating a [`PEP440Version`] from a string.
#[derive(Debug, Clone, PartialEq, Eq)]
pub enum VersionParseError {
    /// The string does not match the version grammar.
    NotThreeParts { full_version: String },
    /// A counter of the version does not fit in `u32`.
    ParseIntError { full_version: String, version_part: String, parse_error: String },
    /// A pre-release tag is not one of the known names.  Whole-version
    /// parsing only ever lexes known tags, as the grammar's alternation
    /// does, so this arises from reading a tag name on its own.
    PrereleaseParseError { full_version: String, pre_name: String },
}

/// A PEP 440-style version: an epoch, three release numbers, and optional
/// pre-release, post-release and dev-release counters.  The local segment is
/// not modelled: it is excluded from ordering and equality, and the parser
/// accepts and discards it.  The epoch is parsed from an `N!` prefix and
/// leads the ordering, but the display never re-emits it.
#[derive(Debug, Clone, Copy, PartialEq, Eq)]
pub struct PEP440Version {
    pub major: u32,
    pub minor: u32,
    pub patch: u32,
    pub epoch: u32,
    pub pre: Option<(Prerelease, u32)>,
    pub post: Option<u32>,
    pub dev: Option<u32>,
}

/// Rank of an optional counter on an ordering axis: an absent counter sorts
/// before the counter zero.
pub open spec fn opt_rank(o: Option<u32>) -> int {
    match o {
        Option::None => -1,
        Option::Some(n) => n as int,
    }
}

/// Strict ordering of versions: lexicographic on
/// `(epoch, major, minor, patch, post, dev)`.  The pre-release marker
/// deliberately does not participate.
pub open spec fn key_lt(a: PEP440Version, b: PEP440Version) -> bool {
    if a.epoch != b.epoch {
        a.epoch < b.epoch
    } else if a.major != b.major {
        a.major < b.major
    } else if a.minor != b.minor {
        a.minor < b.minor
    } else if a.patch != b.patch {
        a.patch < b.patch
    } else if opt_rank(a.post) != opt_rank(b.post) {
        opt_rank(a.post) < opt_rank(b.post)
    } else {
        opt_rank(a.dev) < opt_rank(b.dev)
    }
}

/// Order-equivalence of versions: equal on every ordering axis.  Versions
/// that differ only in the pre-release marker are order-equivalent without
/// being equal.
pub open spec fn key_eq(a: PEP440Version, b: PEP440Version) -> bool {
    a.epoch == b.epoch && a.major == b.major && a.minor == b.minor && a.patch == b.patch
        && opt_rank(a.post) == opt_rank(b.post) && opt_rank(a.dev) == opt_rank(b.dev)
}

pub open spec fn key_le(a: PEP440Version, b: PEP440Version) -> bool {
    key_lt(a, b) || key_eq(a, b)
}

/// Rank comparison of two optional counters, mirroring `opt_rank`.
fn rank_lt(a: &Option<u32>, b: &Option<u32>) -> (r: bool)
    ensures
        r == (opt_rank(*a) < opt_rank(*b)),
{
    match (a, b) {
        (None, Some(_)) => true,
        (Some(x), Some(y)) => x < y,
        _ => false,
    }
}

fn rank_eq(a: &Option<u32>, b: &Option<u32>) -> (r: bool)
    ensures
        r == (opt_rank(*a) == opt_rank(*b)),
{
    match (a, b) {
        (None, None) => true,
        (Some(x), Some(y)) => x == y,
        _ => false,
    }
}

impl PEP440Version {
    pub fn new(major: u32, minor: u32, patch: u32) -> (v: PEP440Version)
        ensures
            v == (PEP440Version {
                major,
                minor,
                patch,
                epoch: 0,
                pre: None,
                post: None,
                dev: None,
            }),
    {
        PEP440Version { major, minor, patch, epoch: 0, pre: None, post: None, dev: None }
    }

    pub fn zero() -> (v: PEP440Version)
        ensures
            v == PEP440Version::new_spec(0, 0, 0),
    {
        PEP440Version::new(0, 0, 0)
    }

    pub fn one() -> (v: PEP440Version)
        ensures
            v == PEP440Version::new_spec(1, 0, 0),
    {
        PEP440Version::new(1, 0, 0)
    }

    /// The plain version with the given release numbers, as a specification
    /// value.
    pub open spec fn new_spec(major: u32, minor: u32, patch: u32) -> PEP440Version {
        PEP440Version { major, minor, patch, epoch: 0, pre: None, post: None, dev: None }
    }

    pub fn bump_major(&self) -> (v: PEP440Version)
        requires
            self.major < u32::MAX,
        ensures
            v == (PEP440Version { major: (self.major + 1) as u32, ..*self }),
    {
        PEP440Version {
            major: self.major + 1,
            minor: self.minor,
            patch: self.patch,
            epoch: self.epoch,
            pre: self.pre,
            post: self.post,
            dev: self.dev,
        }
    }

    pub fn bump_minor(&self) -> (v: PEP440Version)
        requires
            self.minor < u32::MAX,
        ensures
            v == (PEP440Version { minor: (self.minor + 1) as u32, ..*self }),
    {
        PEP440Version {
            major: self.major,
            minor: self.minor + 1,
            patch: self.patch,
            epoch: self.epoch,
            pre: self.pre,
            post: self.post,
            dev: self.dev,
        }
    }

    pub fn bump_patch(&self) -> (v: PEP440Version)
        requires
            self.patch < u32::MAX,
        ensures
            v == (PEP440Version { patch: (self.patch + 1) as u32, ..*self }),
    {
        PEP440Version {
            major: self.major,
            minor: self.minor,
            patch: self.patch + 1,
            epoch: self.epoch,
            pre: self.pre,
            post: self.post,
            dev: self.dev,
        }
    }

    /// The same version marked as the first pre-release of the given kind.
    pub fn pre_release(&self, kind: Prerelease) -> (v: PEP440Version)
        ensures
            v == (PEP440Version { pre: Some((kind, 0u32)), ..*self }),
    {
        PEP440Version {
            major: self.major,
            minor: self.minor,
            patch: self.patch,
            epoch: self.epoch,
            pre: Some((kind, 0)),
            post: self.post,
            dev: self.dev,
        }
    }

    /// Start a post-release counter, or advance an existing one.
    pub fn bump_post(&self) -> (v: PEP440Version)
        requires
            self.post is Some ==> self.post->0 < u32::MAX,
        ensures
            v == (PEP440Version {
                post: Some(
                    match self.post {
                        None => 0u32,
                        Some(p) => (p + 1) as u32,
                    },
                ),
                ..*self
            }),
    {
        let post: u32 = match self.post {
            None => 0,
            Some(p) => p + 1,
        };
        PEP440Version {
            major: self.major,
            minor: self.minor,
            patch: self.patch,
            epoch: self.epoch,
            pre: self.pre,
            post: Some(post),
            dev: self.dev,
        }
    }

    /// Start a dev-release counter, or advance an existing one.
    pub fn bump_dev(&self) -> (v: PEP440Version)
        requires
            self.dev is Some ==> self.dev->0 < u32::MAX,
        ensures
            v == (PEP440Version {
                dev: Some(
                    match self.dev {
                        None => 0u32,
                        Some(d) => (d + 1) as u32,
                    },
                ),
                ..*self
            }),
    {
        let dev: u32 = match self.dev {
            None => 0,
            Some(d) => d + 1,
        };
        PEP440Version {
            major: self.major,
            minor: self.minor,
            patch: self.patch,
            epoch: self.epoch,
            pre: self.pre,
            post: self.post,
            dev: Some(dev),
        }
    }

    /// The least version of all: `0.0.0`.
    pub fn lowest() -> (v: PEP440Version)
        ensures
            v == PEP440Version::new_spec(0, 0, 0),
    {
        PEP440Version::zero()
    }

    /// The version `bump` returns: the next version along the most specific
    /// axis that is set, in the precedence dev, then post, then pre, then
    /// the patch number.
    pub open spec fn bump_spec(v: PEP440Version) -> PEP440Version {
        match (v.pre, v.post, v.dev) {
            (None, None, None) => PEP440Version {
                major: v.major,
                minor: v.minor,
                patch: (v.patch + 1) as u32,
                epoch: v.epoch,
                pre: None,
                post: None,
                dev: None,
            },
            (Some((k, n)), None, None) => PEP440Version { pre: Some((k, (n + 1) as u32)), ..v },
            (_, Some(p), None) => PEP440Version { post: Some((p + 1) as u32), ..v },
            (_, _, Some(d)) => PEP440Version { dev: Some((d + 1) as u32), ..v },
        }
    }

    /// The next version along the most specific active axis.  On the dev,
    /// post and release axes the result is strictly greater in precedence;
    /// on the pre-release axis the counter advances but the result stays
    /// order-equivalent, since the pre-release marker sits outside the
    /// precedence order.
    pub fn bump(&self) -> (v: PEP440Version)
        requires
            self.pre is None && self.post is None && self.dev is None ==> self.patch < u32::MAX,
            self.post is None && self.dev is None ==> (match self.pre {
                Some((k, n)) => n < u32::MAX,
                None => true,
            }),
            self.post is Some && self.dev is None ==> self.post->0 < u32::MAX,
            self.dev is Some ==> self.dev->0 < u32::MAX,
        ensures
            v == PEP440Version::bump_spec(*self),
            !(self.pre is Some && self.post is None && self.dev is None) ==> key_lt(*self, v),
            self.pre is Some && self.post is None && self.dev is None ==> key_eq(*self, v),
    {
        match (self.pre, self.post, self.dev) {
            (None, None, None) => PEP440Version {
                major: self.major,
                minor: self.minor,
                patch: self.patch + 1,
                epoch: self.epoch,
                pre: None,
                post: None,
                dev: None,
            },
            (Some((k, n)), None, None) => PEP440Version {
                major: self.major,
                minor: self.minor,
                patch: self.patch,
                epoch: self.epoch,
                pre: Some((k, n + 1)),
                post: self.post,
                dev: self.dev,
            },
            (_, Some(_), None) => self.bump_post(),
            (_, _, Some(_)) => self.bump_dev(),
        }
    }

    /// Strict comparison in version precedence order.
    pub fn lt(&self, other: &PEP440Version) -> (r: bool)
        ensures
            r == key_lt(*self, *other),
    {
        if self.epoch != other.epoch {
            self.epoch < other.epoch
        } else if self.major != other.major {
            self.major < other.major
        } else if self.minor != other.minor {
            self.minor < other.minor
        } else if self.patch != other.patch {
            self.patch < other.patch
        } else if !rank_eq(&self.post, &other.post) {
            rank_lt(&self.post, &other.post)
        } else {
            rank_lt(&self.dev, &other.dev)
        }
    }

    /// Precedence-equality: equal on every ordering axis.
    pub fn same_precedence(&self, other: &PEP440Version) -> (r: bool)
        ensures
            r == key_eq(*self, *other),
    {
        self.epoch == other.epoch && self.major == other.major && self.minor == other.minor
            && self.patch == other.patch && rank_eq(&self.post, &other.post) && rank_eq(
            &self.dev,
            &other.dev,
        )
    }

    /// Non-strict comparison in version precedence order.
    pub fn le(&self, other: &PEP440Version) -> (r: bool)
        ensures
            r == key_le(*self, *other),
    {
        self.lt(other) || self.same_precedence(other)
    }

    /// Structural equality of versions, every field included.
    pub fn equals(&self, other: &PEP440Version) -> (r: bool)
        ensures
            r == (*self == *other),
    {
        let pre_same = match (&self.pre, &other.pre) {
            (None, None) => true,
            (Some((ka, na)), Some((kb, nb))) => {
                let kinds = match (ka, kb) {
                    (Prerelease::Alpha, Prerelease::Alpha) => true,
                    (Prerelease::Beta, Prerelease::Beta) => true,
                    (Prerelease::ReleaseCandidate, Prerelease::ReleaseCandidate) => true,
                    _ => false,
                };
                kinds && na == nb
            },
            _ => false,
        };
        pre_same && self.major == other.major && self.minor == other.minor
            && self.patch == other.patch && self.epoch == other.epoch
            && rank_eq_structural(&self.post, &other.post) && rank_eq_structural(
            &self.dev,
            &other.dev,
        )
    }
}

/// Structural equality of optional counters.
fn rank_eq_structural(a: &Option<u32>, b: &Option<u32>) -> (r: bool)
    ensures
        r == (*a == *b),
{
    match (a, b) {
        (None, None) => true,
        (Some(x), Some(y)) => x == y,
        _ => false,
    }
}

/// The character for a single decimal digit.
pub open spec fn digit_char(d: int) -> char
    recommends
        0 <= d <= 9,
{
    if d == 0 {
        '0'
    } else if d == 1 {
        '1'
    } else if d == 2 {
        '2'
    } else if d == 3 {
        '3'
    } else if d == 4 {
        '4'
    } else if d == 5 {
        '5'
    } else if d == 6 {
        '6'
    } else if d == 7 {
        '7'
    } else if d == 8 {
        '8'
    } else {
        '9'
    }
}

pub open spec fn is_digit(c: char) -> bool {
    '0' <= c && c <= '9'
}

/// Numeric value of a decimal digit character.
pub open spec fn digit_val(c: char) -> int {
    c as int - '0' as int
}

/// The canonical decimal rendering of a non-negative integer.
pub open spec fn dec_chars(n: int) -> Seq<char>
    recommends
        n >= 0,
    decreases n,
{
    if n <= 9 {
        seq![digit_char(n)]
    } else {
        dec_chars(n / 10).push(digit_char(n % 10))
    }
}

/// Numeric value of a sequence of decimal digit characters.
pub open spec fn num_val(s: Seq<char>) -> int
    decreases s.len(),
{
    if s.len() == 0 {
        0
    } else {
        num_val(s.drop_last()) * 10 + digit_val(s.last())
    }
}

/// Append a single decimal digit to a string.
fn push_digit(s: &mut String, d: u32)
    requires
        d < 10,
    ensures
        final(s)@ == old(s)@.push(digit_char(d as int)),
{
    proof {
        reveal_strlit("0");
        reveal_strlit("1");
        reveal_strlit("2");
        reveal_strlit("3");
        reveal_strlit("4");
        reveal_strlit("5");
        reveal_strlit("6");
        reveal_strlit("7");
        reveal_strlit("8");
        reveal_strlit("9");
    }
    match d {
        0 => s.append("0"),
        1 => s.append("1"),
        2 => s.append("2"),
        3 => s.append("3"),
        4 => s.append("4"),
        5 => s.append("5"),
        6 => s.append("6"),
        7 => s.append("7"),
        8 => s.append("8"),
        _ => s.append("9"),
    }
    proof {
        assert(s@ =~= old(s)@.push(digit_char(d as int)));
    }
}

/// Append the decimal rendering of `n` to a string.
fn push_u32(s: &mut String, n: u32)
    ensures
        final(s)@ == old(s)@ + dec_chars(n as int),
    decreases n,
{
    if n <= 9 {
        push_digit(s, n);
        proof {
            assert(s@ =~= old(s)@ + dec_chars(n as int));
        }
    } else {
        push_u32(s, n / 10);
        push_digit(s, n % 10);
        proof {
            assert(s@ =~= old(s)@ + dec_chars(n as int));
        }
    }
}

/// The tag characters a pre-release kind is displayed with.
pub open spec fn pre_tag_chars(k: Prerelease) -> Seq<char> {
    match k {
        Prerelease::Alpha => seq!['a'],
        Prerelease::Beta => seq!['b'],
        Prerelease::ReleaseCandidate => seq!['r', 'c'],
    }
}

/// The display rendering of a version: `major.minor.patch`, then the
/// pre-release tag and counter, then `post<n>`, then `dev<n>`.  The epoch and
/// the local segment are deliberately not re-emitted.
pub open spec fn version_chars(v: PEP440Version) -> Seq<char> {
    dec_chars(v.major as int) + seq!['.'] + dec_chars(v.minor as int) + seq!['.'] + dec_chars(
        v.patch as int,
    ) + (match v.pre {
        None => Seq::<char>::empty(),
        Some((k, n)) => pre_tag_chars(k) + dec_chars(n as int),
    }) + (match v.post {
        None => Seq::<char>::empty(),
        Some(n) => seq!['p', 'o', 's', 't'] + dec_chars(n as int),
    }) + (match v.dev {
        None => Seq::<char>::empty(),
        Some(n) => seq!['d', 'e', 'v'] + dec_chars(n as int),
    })
}

impl Prerelease {
    /// The display tag of this pre-release kind.
    pub fn to_string(&self) -> (r: String)
        ensures
            r@ == pre_tag_chars(*self),
    {
        proof {
            reveal_strlit("a");
            reveal_strlit("b");
            reveal_strlit("rc");
        }
        let r = match self {
            Prerelease::Alpha => String::from_str("a"),
            Prerelease::Beta => String::from_str("b"),
            Prerelease::ReleaseCandidate => String::from_str("rc"),
        };
        proof {
            assert(r@ =~= pre_tag_chars(*self));
        }
        r
    }
}

/// Separator characters the version grammar accepts around tags.
pub open spec fn is_sep(c: char) -> bool {
    c == '-' || c == '_' || c == '.'
}

/// First position at or after `i` that does not hold a decimal digit.
pub open spec fn digits_end(s: Seq<char>, i: int) -> int
    decreases s.len() - i,
{
    if i < 0 || i >= s.len() {
        i
    } else if !is_digit(s[i]) {
        i
    } else {
        digits_end(s, i + 1)
    }
}

/// End of a release region `digits ('.' digits)*` that starts at `i`.
pub open spec fn rel_scan(s: Seq<char>, i: int) -> int
    decreases s.len() - i,
{
    if i < 0 || i >= s.len() {
        i
    } else if is_digit(s[i]) {
        rel_scan(s, i + 1)
    } else if s[i] == '.' && i + 1 < s.len() && is_digit(s[i + 1]) {
        rel_scan(s, i + 2)
    } else {
        i
    }
}

/// Does the literal `t` occur in `s` at position `i`?
pub open spec fn match_at(s: Seq<char>, i: int, t: Seq<char>) -> bool {
    0 <= i && i + t.len() <= s.len() && s.subrange(i, i + t.len()) == t
}

/// The pre-release tag found at position `i`, longest tag first, with its
/// length and the kind it names.
pub open spec fn pre_tag_at(s: Seq<char>, i: int) -> Option<(int, Prerelease)> {
    if match_at(s, i, seq!['p', 'r', 'e', 'v', 'i', 'e', 'w']) {
        Some((7, Prerelease::ReleaseCandidate))
    } else if match_at(s, i, seq!['a', 'l', 'p', 'h', 'a']) {
        Some((5, Prerelease::Alpha))
    } else if match_at(s, i, seq!['b', 'e', 't', 'a']) {
        Some((4, Prerelease::Beta))
    } else if match_at(s, i, seq!['p', 'r', 'e']) {
        Some((3, Prerelease::ReleaseCandidate))
    } else if match_at(s, i, seq!['r', 'c']) {
        Some((2, Prerelease::ReleaseCandidate))
    } else if match_at(s, i, seq!['a']) {
        Some((1, Prerelease::Alpha))
    } else if match_at(s, i, seq!['b']) {
        Some((1, Prerelease::Beta))
    } else if match_at(s, i, seq!['c']) {
        Some((1, Prerelease::ReleaseCandidate))
    } else {
        None
    }
}

/// The post-release tag found at position `i`, longest tag first.
pub open spec fn post_tag_at(s: Seq<char>, i: int) -> Option<int> {
    if match_at(s, i, seq!['p', 'o', 's', 't']) {
        Some(4)
    } else if match_at(s, i, seq!['r', 'e', 'v']) {
        Some(3)
    } else if match_at(s, i, seq!['r']) {
        Some(1)
    } else {
        None
    }
}

/// Where the pre-release group of a version string was found.
pub struct PreCaps {
    pub group_start: int,
    pub tag_start: int,
    pub tag_end: int,
    pub kind: Prerelease,
    pub counter: Option<(int, int)>,
    pub end: int,
}

/// Where a tagged counter group (post- or dev-release) was found.
pub struct GroupCaps {
    pub group_start: int,
    pub counter: Option<(int, int)>,
    pub end: int,
}

/// Where the post-release group was found: either the bare `-N` shorthand or
/// a tagged form.
pub enum PostCaps {
    Bare { group_start: int, n_start: int, n_end: int },
    Tagged(GroupCaps),
}

impl PostCaps {
    pub open spec fn end(self) -> int {
        match self {
            PostCaps::Bare { group_start, n_start, n_end } => n_end,
            PostCaps::Tagged(g) => g.end,
        }
    }
}

/// Everything the version grammar captures from an accepted string.
pub struct SpecCaptures {
    pub epoch: Option<(int, int)>,
    pub rel_start: int,
    pub rel_end: int,
    pub pre: Option<PreCaps>,
    pub post: Option<PostCaps>,
    pub dev: Option<GroupCaps>,
    pub local_start: Option<int>,
}

/// Start of the version proper, after an optional leading `v`.
pub open spec fn v_start(s: Seq<char>) -> int {
    if s.len() > 0 && s[0] == 'v' {
        1
    } else {
        0
    }
}

/// The digit range of an `N!` epoch prefix, if one is present.
pub open spec fn epoch_caps(s: Seq<char>) -> Option<(int, int)> {
    let i = v_start(s);
    let e = digits_end(s, i);
    if e > i && e < s.len() && s[e] == '!' {
        Some((i, e))
    } else {
        None
    }
}

/// Start of the release digits.
pub open spec fn rel_start(s: Seq<char>) -> int {
    match epoch_caps(s) {
        Some((a, e)) => e + 1,
        None => v_start(s),
    }
}

/// The pre-release group starting at position `i`, if one is present.  An
/// optional separator, a tag, an optional separator, then optional digits;
/// the trailing separator is consumed even when no digits follow.
pub open spec fn pre_caps(s: Seq<char>, i: int) -> Option<PreCaps> {
    let i1 = if 0 <= i && i < s.len() && is_sep(s[i]) {
        i + 1
    } else {
        i
    };
    match pre_tag_at(s, i1) {
        None => None,
        Some((tl, kind)) => {
            let i2 = i1 + tl;
            let i3 = if i2 < s.len() && is_sep(s[i2]) {
                i2 + 1
            } else {
                i2
            };
            let e = digits_end(s, i3);
            if e > i3 {
                Some(
                    PreCaps {
                        group_start: i,
                        tag_start: i1,
                        tag_end: i2,
                        kind,
                        counter: Some((i3, e)),
                        end: e,
                    },
                )
            } else {
                Some(
                    PreCaps {
                        group_start: i,
                        tag_start: i1,
                        tag_end: i2,
                        kind,
                        counter: None,
                        end: i3,
                    },
                )
            }
        },
    }
}

/// The post-release group starting at position `i`, if one is present.  The
/// bare `-N` shorthand is tried first, as the grammar does.
pub open spec fn post_caps(s: Seq<char>, i: int) -> Option<PostCaps> {
    if 0 <= i && i < s.len() && s[i] == '-' && i + 1 < s.len() && is_digit(s[i + 1]) {
        let e = digits_end(s, i + 1);
        Some(PostCaps::Bare { group_start: i, n_start: i + 1, n_end: e })
    } else {
        let i1 = if 0 <= i && i < s.len() && is_sep(s[i]) {
            i + 1
        } else {
            i
        };
        match post_tag_at(s, i1) {
            None => None,
            Some(tl) => {
                let i2 = i1 + tl;
                let i3 = if i2 < s.len() && is_sep(s[i2]) {
                    i2 + 1
                } else {
                    i2
                };
                let e = digits_end(s, i3);
                if e > i3 {
                    Some(
                        PostCaps::Tagged(
                            GroupCaps { group_start: i, counter: Some((i3, e)), end: e },
                        ),
                    )
                } else {
                    Some(PostCaps::Tagged(GroupCaps { group_start: i, counter: None, end: i3 }))
                }
            },
        }
    }
}

/// The dev-release group starting at position `i`, if one is present.
pub open spec fn dev_caps(s: Seq<char>, i: int) -> Option<GroupCaps> {
    let i1 = if 0 <= i && i < s.len() && is_sep(s[i]) {
        i + 1
    } else {
        i
    };
    if match_at(s, i1, seq!['d', 'e', 'v']) {
        let i2 = i1 + 3;
        let i3 = if i2 < s.len() && is_sep(s[i2]) {
            i2 + 1
        } else {
            i2
        };
        let e = digits_end(s, i3);
        if e > i3 {
            Some(GroupCaps { group_start: i, counter: Some((i3, e)), end: e })
        } else {
            Some(GroupCaps { group_start: i, counter: None, end: i3 })
        }
    } else {
        None
    }
}

/// Characters a local segment may hold between separators.
pub open spec fn is_local_char(c: char) -> bool {
    ('a' <= c && c <= 'z') || is_digit(c)
}

/// Scan of a local segment after its `+`: groups of local characters joined
/// by single separators, running to the end of the string.
pub open spec fn local_run(s: Seq<char>, i: int, need_char: bool) -> bool
    decreases s.len() - i,
{
    if i < 0 {
        false
    } else if i >= s.len() {
        !need_char
    } else if is_local_char(s[i]) {
        local_run(s, i + 1, false)
    } else if is_sep(s[i]) && !need_char {
        local_run(s, i + 1, true)
    } else {
        false
    }
}

/// The version grammar: where each part of an accepted string lies, or `None`
/// where the string is not a version.
pub open spec fn spec_captures(s: Seq<char>) -> Option<SpecCaptures> {
    let rs = rel_start(s);
    if !(0 <= rs && rs < s.len() && is_digit(s[rs])) {
        None
    } else {
        let re = rel_scan(s, rs);
        let pre = pre_caps(s, re);
        let pre_end = match pre {
            Some(pc) => pc.end,
            None => re,
        };
        let post = post_caps(s, pre_end);
        let post_end = match post {
            Some(po) => po.end(),
            None => pre_end,
        };
        let dev = dev_caps(s, post_end);
        let dev_end = match dev {
            Some(g) => g.end,
            None => post_end,
        };
        if dev_end == s.len() {
            Some(
                SpecCaptures {
                    epoch: epoch_caps(s),
                    rel_start: rs,
                    rel_end: re,
                    pre,
                    post,
                    dev,
                    local_start: None,
                },
            )
        } else if s[dev_end] == '+' && local_run(s, dev_end + 1, true) {
            Some(
                SpecCaptures {
                    epoch: epoch_caps(s),
                    rel_start: rs,
                    rel_end: re,
                    pre,
                    post,
                    dev,
                    local_start: Some(dev_end),
                },
            )
        } else {
            None
        }
    }
}

/// Every position before `digits_end(s, i)` holds a digit, and the scan
/// stops at the end or at the first position that does not.
pub proof fn lemma_digits_end(s: Seq<char>, i: int)
    requires
        0 <= i <= s.len(),
    ensures
        i <= digits_end(s, i) <= s.len(),
        forall|k: int| i <= k < digits_end(s, i) ==> is_digit(s[k]),
        digits_end(s, i) < s.len() ==> !is_digit(s[digits_end(s, i)]),
    decreases s.len() - i,
{
    if i < s.len() && is_digit(s[i]) {
        lemma_digits_end(s, i + 1);
    }
}

pub proof fn lemma_rel_scan(s: Seq<char>, i: int)
    requires
        0 <= i <= s.len(),
    ensures
        i <= rel_scan(s, i) <= s.len(),
    decreases s.len() - i,
{
    if i < s.len() && is_digit(s[i]) {
        lemma_rel_scan(s, i + 1);
    } else if i < s.len() && s[i] == '.' && i + 1 < s.len() && is_digit(s[i + 1]) {
        lemma_rel_scan(s, i + 2);
    }
}

fn is_digit_exec(c: char) -> (r: bool)
    ensures
        r == is_digit(c),
{
    c >= '0' && c <= '9'
}

fn is_sep_exec(c: char) -> (r: bool)
    ensures
        r == is_sep(c),
{
    c == '-' || c == '_' || c == '.'
}

fn is_local_char_exec(c: char) -> (r: bool)
    ensures
        r == is_local_char(c),
{
    (c >= 'a' && c <= 'z') || (c >= '0' && c <= '9')
}

/// First position at or after `i` without a decimal digit.
fn scan_digits(s: &str, n: usize, i: usize) -> (r: usize)
    requires
        n == s@.len(),
        i <= n,
    ensures
        r == digits_end(s@, i as int),
        i <= r <= n,
{
    let mut j = i;
    loop
        invariant
            i <= j <= n,
            n == s@.len(),
            digits_end(s@, i as int) == digits_end(s@, j as int),
        decreases n - j,
    {
        if j >= n {
            return j;
        }
        let c = s.get_char(j);
        if !is_digit_exec(c) {
            return j;
        }
        j = j + 1;
    }
}

/// End of the release region `digits ('.' digits)*` starting at `i`.
fn scan_release(s: &str, n: usize, i: usize) -> (r: usize)
    requires
        n == s@.len(),
        i <= n,
    ensures
        r == rel_scan(s@, i as int),
        i <= r <= n,
{
    let mut j = i;
    loop
        invariant
            i <= j <= n,
            n == s@.len(),
            rel_scan(s@, i as int) == rel_scan(s@, j as int),
        decreases n - j,
    {
        if j >= n {
            return j;
        }
        let c = s.get_char(j);
        if is_digit_exec(c) {
            j = j + 1;
        } else if c == '.' && j + 1 < n && is_digit_exec(s.get_char(j + 1)) {
            j = j + 2;
        } else {
            return j;
        }
    }
}

/// Does the literal `t` occur in `s` at position `i`?
pub(crate) fn match_lit(s: &str, n: usize, i: usize, t: &str) -> (r: bool)
    requires
        n == s@.len(),
    ensures
        r == match_at(s@, i as int, t@),
{
    let tl = t.unicode_len();
    if i > n || tl > n - i {
        return false;
    }
    let mut k: usize = 0;
    loop
        invariant
            0 <= k <= tl,
            tl == t@.len(),
            n == s@.len(),
            i + tl <= n,
            forall|m: int| 0 <= m < k ==> s@[i + m] == t@[m],
        decreases tl - k,
    {
        if k >= tl {
            proof {
                assert(s@.subrange(i as int, i + tl) =~= t@);
            }
            return true;
        }
        if s.get_char(i + k) != t.get_char(k) {
            proof {
                assert(s@.subrange(i as int, i + tl)[k as int] == s@[i + k]);
            }
            return false;
        }
        k = k + 1;
    }
}

/// Is the tail of a local segment, after its `+`, well formed from `i` on?
fn check_local(s: &str, n: usize, i: usize) -> (r: bool)
    requires
        n == s@.len(),
        i <= n,
    ensures
        r == local_run(s@, i as int, true),
{
    let mut j = i;
    let mut need_char = true;
    loop
        invariant
            i <= j <= n,
            n == s@.len(),
            local_run(s@, i as int, true) == local_run(s@, j as int, need_char),
        decreases n - j,
    {
        if j >= n {
            return !need_char;
        }
        let c = s.get_char(j);
        if is_local_char_exec(c) {
            need_char = false;
            j = j + 1;
        } else if is_sep_exec(c) && !need_char {
            need_char = true;
            j = j + 1;
        } else {
            return false;
        }
    }
}

/// Positions of a pre-release group, as the scanner finds them.
struct ExecPre {
    tag_start: usize,
    tag_end: usize,
    kind: Prerelease,
    counter: Option<(usize, usize)>,
    end: usize,
}

spec fn exec_pre_matches(pc: PreCaps, e: ExecPre) -> bool {
    &&& e.tag_start == pc.tag_start
    &&& e.tag_end == pc.tag_end
    &&& e.kind == pc.kind
    &&& match (pc.counter, e.counter) {
        (Some((a, b)), Some((x, y))) => x == a && y == b,
        (None, None) => true,
        _ => false,
    }
    &&& e.end == pc.end
}

fn find_pre(s: &str, n: usize, i: usize) -> (r: Option<ExecPre>)
    requires
        n == s@.len(),
        i <= n,
    ensures
        (r is Some) == (pre_caps(s@, i as int) is Some),
        r is Some ==> exec_pre_matches(pre_caps(s@, i as int)->0, r->0),
        r is Some ==> i <= r->0.tag_start <= r->0.tag_end <= n && i <= r->0.end <= n,
        r is Some ==> match r->0.counter {
            Some((a, b)) => a <= b <= n,
            None => true,
        },
{
    proof {
        reveal_strlit("preview");
        reveal_strlit("alpha");
        reveal_strlit("beta");
        reveal_strlit("pre");
        reveal_strlit("rc");
        reveal_strlit("a");
        reveal_strlit("b");
        reveal_strlit("c");
        assert("preview"@ =~= seq!['p', 'r', 'e', 'v', 'i', 'e', 'w']);
        assert("alpha"@ =~= seq!['a', 'l', 'p', 'h', 'a']);
        assert("beta"@ =~= seq!['b', 'e', 't', 'a']);
        assert("pre"@ =~= seq!['p', 'r', 'e']);
        assert("rc"@ =~= seq!['r', 'c']);
        assert("a"@ =~= seq!['a']);
        assert("b"@ =~= seq!['b']);
        assert("c"@ =~= seq!['c']);
    }
    let i1 = if i < n && is_sep_exec(s.get_char(i)) {
        i + 1
    } else {
        i
    };
    let found: Option<(usize, Prerelease)> = if match_lit(s, n, i1, "preview") {
        Some((7, Prerelease::ReleaseCandidate))
    } else if match_lit(s, n, i1, "alpha") {
        Some((5, Prerelease::Alpha))
    } else if match_lit(s, n, i1, "beta") {
        Some((4, Prerelease::Beta))
    } else if match_lit(s, n, i1, "pre") {
        Some((3, Prerelease::ReleaseCandidate))
    } else if match_lit(s, n, i1, "rc") {
        Some((2, Prerelease::ReleaseCandidate))
    } else if match_lit(s, n, i1, "a") {
        Some((1, Prerelease::Alpha))
    } else if match_lit(s, n, i1, "b") {
        Some((1, Prerelease::Beta))
    } else if match_lit(s, n, i1, "c") {
        Some((1, Prerelease::ReleaseCandidate))
    } else {
        None
    };
    match found {
        None => None,
        Some((tl, kind)) => {
            let i2 = i1 + tl;
            let i3 = if i2 < n && is_sep_exec(s.get_char(i2)) {
                i2 + 1
            } else {
                i2
            };
            let e = scan_digits(s, n, i3);
            if e > i3 {
                Some(ExecPre { tag_start: i1, tag_end: i2, kind, counter: Some((i3, e)), end: e })
            } else {
                Some(ExecPre { tag_start: i1, tag_end: i2, kind, counter: None, end: i3 })
            }
        },
    }
}

/// Positions of a post-release group, as the scanner finds them.
enum ExecPost {
    Bare { n_start: usize, n_end: usize },
    Tagged { counter: Option<(usize, usize)>, end: usize },
}

impl ExecPost {
    fn end_pos(&self) -> (r: usize)
        ensures
            r as int == exec_post_end(*self),
    {
        match self {
            ExecPost::Bare { n_start, n_end } => *n_end,
            ExecPost::Tagged { counter, end } => *end,
        }
    }
}

spec fn exec_post_matches(po: PostCaps, e: ExecPost) -> bool {
    match (po, e) {
        (
            PostCaps::Bare { group_start, n_start, n_end },
            ExecPost::Bare { n_start: x, n_end: y },
        ) => x == n_start && y == n_end,
        (PostCaps::Tagged(g), ExecPost::Tagged { counter, end }) => {
            &&& match (g.counter, counter) {
                (Some((a, b)), Some((x, y))) => x == a && y == b,
                (None, None) => true,
                _ => false,
            }
            &&& end == g.end
        },
        _ => false,
    }
}

spec fn exec_post_end(e: ExecPost) -> int {
    match e {
        ExecPost::Bare { n_start, n_end } => n_end as int,
        ExecPost::Tagged { counter, end } => end as int,
    }
}

fn find_post(s: &str, n: usize, i: usize) -> (r: Option<ExecPost>)
    requires
        n == s@.len(),
        i <= n,
    ensures
        (r is Some) == (post_caps(s@, i as int) is Some),
        r is Some ==> exec_post_matches(post_caps(s@, i as int)->0, r->0),
        r is Some ==> i <= exec_post_end(r->0) <= n && exec_post_end(r->0) == post_caps(
            s@,
            i as int,
        )->0.end(),
        r is Some ==> match r->0 {
            ExecPost::Bare { n_start, n_end } => n_start <= n_end <= n,
            ExecPost::Tagged { counter, end } => match counter {
                Some((a, b)) => a <= b <= n,
                None => true,
            },
        },
{
    proof {
        reveal_strlit("post");
        reveal_strlit("rev");
        reveal_strlit("r");
        assert("post"@ =~= seq!['p', 'o', 's', 't']);
        assert("rev"@ =~= seq!['r', 'e', 'v']);
        assert("r"@ =~= seq!['r']);
    }
    if i < n && s.get_char(i) == '-' && i + 1 < n && is_digit_exec(s.get_char(i + 1)) {
        let e = scan_digits(s, n, i + 1);
        return Some(ExecPost::Bare { n_start: i + 1, n_end: e });
    }
    let i1 = if i < n && is_sep_exec(s.get_char(i)) {
        i + 1
    } else {
        i
    };
    let found: Option<usize> = if match_lit(s, n, i1, "post") {
        Some(4)
    } else if match_lit(s, n, i1, "rev") {
        Some(3)
    } else if match_lit(s, n, i1, "r") {
        Some(1)
    } else {
        None
    };
    match found {
        None => None,
        Some(tl) => {
            let i2 = i1 + tl;
            let i3 = if i2 < n && is_sep_exec(s.get_char(i2)) {
                i2 + 1
            } else {
                i2
            };
            let e = scan_digits(s, n, i3);
            if e > i3 {
                Some(ExecPost::Tagged { counter: Some((i3, e)), end: e })
            } else {
                Some(ExecPost::Tagged { counter: None, end: i3 })
            }
        },
    }
}

/// Positions of a dev-release group, as the scanner finds them.
struct ExecDev {
    counter: Option<(usize, usize)>,
    end: usize,
}

spec fn exec_dev_matches(g: GroupCaps, e: ExecDev) -> bool {
    &&& match (g.counter, e.counter) {
        (Some((a, b)), Some((x, y))) => x == a && y == b,
        (None, None) => true,
        _ => false,
    }
    &&& e.end == g.end
}

fn find_dev(s: &str, n: usize, i: usize) -> (r: Option<ExecDev>)
    requires
        n == s@.len(),
        i <= n,
    ensures
        (r is Some) == (dev_caps(s@, i as int) is Some),
        r is Some ==> exec_dev_matches(dev_caps(s@, i as int)->0, r->0),
        r is Some ==> i <= r->0.end <= n,
        r is Some ==> match r->0.counter {
            Some((a, b)) => a <= b <= n,
            None => true,
        },
{
    proof {
        reveal_strlit("dev");
        assert("dev"@ =~= seq!['d', 'e', 'v']);
    }
    let i1 = if i < n && is_sep_exec(s.get_char(i)) {
        i + 1
    } else {
        i
    };
    if match_lit(s, n, i1, "dev") {
        let i2 = i1 + 3;
        let i3 = if i2 < n && is_sep_exec(s.get_char(i2)) {
            i2 + 1
        } else {
            i2
        };
        let e = scan_digits(s, n, i3);
        if e > i3 {
            Some(ExecDev { counter: Some((i3, e)), end: e })
        } else {
            Some(ExecDev { counter: None, end: i3 })
        }
    } else {
        None
    }
}

/// The parts of a version string, by the names the grammar gives them.
pub struct VersionCaptures {
    pub epoch: Option<String>,
    pub release: String,
    pub pre_l: Option<String>,
    pub pre_n: Option<String>,
    pub post: Option<String>,
    pub post_n1: Option<String>,
    pub post_n2: Option<String>,
    pub dev: Option<String>,
    pub dev_n: Option<String>,
}

/// Does the executable capture value hold exactly the text the grammar
/// captured?
pub open spec fn captures_match(s: Seq<char>, c: SpecCaptures, r: VersionCaptures) -> bool {
    &&& match c.epoch {
        Some((a, b)) => r.epoch is Some && r.epoch->0@ == s.subrange(a, b),
        None => r.epoch is None,
    }
    &&& r.release@ == s.subrange(c.rel_start, c.rel_end)
    &&& match c.pre {
        Some(pc) => {
            &&& r.pre_l is Some
            &&& r.pre_l->0@ == s.subrange(pc.tag_start, pc.tag_end)
            &&& match pc.counter {
                Some((a, b)) => r.pre_n is Some && r.pre_n->0@ == s.subrange(a, b),
                None => r.pre_n is None,
            }
        },
        None => r.pre_l is None && r.pre_n is None,
    }
    &&& match c.post {
        Some(PostCaps::Bare { group_start, n_start, n_end }) => {
            &&& r.post is Some
            &&& r.post->0@ == s.subrange(group_start, n_end)
            &&& r.post_n1 is Some
            &&& r.post_n1->0@ == s.subrange(n_start, n_end)
            &&& r.post_n2 is None
        },
        Some(PostCaps::Tagged(g)) => {
            &&& r.post is Some
            &&& r.post->0@ == s.subrange(g.group_start, g.end)
            &&& r.post_n1 is None
            &&& match g.counter {
                Some((a, b)) => r.post_n2 is Some && r.post_n2->0@ == s.subrange(a, b),
                None => r.post_n2 is None,
            }
        },
        None => r.post is None && r.post_n1 is None && r.post_n2 is None,
    }
    &&& match c.dev {
        Some(g) => {
            &&& r.dev is Some
            &&& r.dev->0@ == s.subrange(g.group_start, g.end)
            &&& match g.counter {
                Some((a, b)) => r.dev_n is Some && r.dev_n->0@ == s.subrange(a, b),
                None => r.dev_n is None,
            }
        },
        None => r.dev is None && r.dev_n is None,
    }
}

/// Match a string against the version grammar and hand out the named parts,
/// or `None` where the string is not a version.
pub fn version_captures(s: &str) -> (r: Option<VersionCaptures>)
    ensures
        (r is Some) == (spec_captures(s@) is Some),
        r is Some ==> captures_match(s@, spec_captures(s@)->0, r->0),
{
    let n = s.unicode_len();
    let v0: usize = if n > 0 && s.get_char(0) == 'v' {
        1
    } else {
        0
    };
    let de = scan_digits(s, n, v0);
    let rs: usize = if de > v0 && de < n && s.get_char(de) == '!' {
        de + 1
    } else {
        v0
    };
    proof {
        assert(rs == rel_start(s@));
    }
    if rs >= n {
        return None;
    }
    if !is_digit_exec(s.get_char(rs)) {
        return None;
    }
    let re = scan_release(s, n, rs);
    let pre = find_pre(s, n, re);
    let pre_end = match &pre {
        Some(p) => p.end,
        None => re,
    };
    let post = find_post(s, n, pre_end);
    let post_end = match &post {
        Some(p) => p.end_pos(),
        None => pre_end,
    };
    proof {
        assert(pre_end as int == (match pre_caps(s@, re as int) {
            Some(pc) => pc.end,
            None => re as int,
        }));
        assert(post_end as int == (match post_caps(s@, pre_end as int) {
            Some(po) => po.end(),
            None => pre_end as int,
        }));
    }
    let dev = find_dev(s, n, post_end);
    let dev_end = match &dev {
        Some(g) => g.end,
        None => post_end,
    };
    proof {
        assert(dev_end as int == (match dev_caps(s@, post_end as int) {
            Some(g) => g.end,
            None => post_end as int,
        }));
    }
    if dev_end < n {
        if s.get_char(dev_end) != '+' {
            return None;
        }
        if !check_local(s, n, dev_end + 1) {
            return None;
        }
    }
    let epoch: Option<String> = if de > v0 && de < n && s.get_char(de) == '!' {
        Some(s.substring_char(v0, de).to_owned())
    } else {
        None
    };
    let release = s.substring_char(rs, re).to_owned();
    let (pre_l, pre_n) = match &pre {
        Some(p) => {
            let l = s.substring_char(p.tag_start, p.tag_end).to_owned();
            let pn = match p.counter {
                Some((a, b)) => Some(s.substring_char(a, b).to_owned()),
                None => None,
            };
            (Some(l), pn)
        },
        None => (None, None),
    };
    let (post_full, post_n1, post_n2) = match &post {
        Some(ExecPost::Bare { n_start, n_end }) => (
            Some(s.substring_char(pre_end, *n_end).to_owned()),
            Some(s.substring_char(*n_start, *n_end).to_owned()),
            None,
        ),
        Some(ExecPost::Tagged { counter, end }) => {
            let p2 = match counter {
                Some((a, b)) => Some(s.substring_char(*a, *b).to_owned()),
                None => None,
            };
            (Some(s.substring_char(pre_end, *end).to_owned()), None, p2)
        },
        None => (None, None, None),
    };
    let (dev_full, dev_n) = match &dev {
        Some(g) => {
            let full = s.substring_char(post_end, g.end).to_owned();
            let dn = match g.counter {
                Some((a, b)) => Some(s.substring_char(a, b).to_owned()),
                None => None,
            };
            (Some(full), dn)
        },
        None => (None, None),
    };
    Some(
        VersionCaptures {
            epoch,
            release,
            pre_l,
            pre_n,
            post: post_full,
            post_n1,
            post_n2,
            dev: dev_full,
            dev_n,
        },
    )
}

/// What an error of parsing says, as a specification value.
pub enum VersionErrorSpec {
    NotThreeParts { full: Seq<char> },
    ParseIntError { full: Seq<char>, part: Seq<char> },
    PrereleaseParseError { full: Seq<char>, name: Seq<char> },
}

/// The message a counter too large for `u32` is reported with.
pub open spec fn overflow_msg() -> Seq<char> {
    "number too large to fit in target type"@
}

/// Does the executable error value say what the specification error says?
pub open spec fn version_err_matches(e: VersionParseError, m: VersionErrorSpec) -> bool {
    match (e, m) {
        (
            VersionParseError::NotThreeParts { full_version },
            VersionErrorSpec::NotThreeParts { full },
        ) => full_version@ == full,
        (
            VersionParseError::ParseIntError { full_version, version_part, parse_error },
            VersionErrorSpec::ParseIntError { full, part },
        ) => full_version@ == full && version_part@ == part && parse_error@ == overflow_msg(),
        (
            VersionParseError::PrereleaseParseError { full_version, pre_name },
            VersionErrorSpec::PrereleaseParseError { full, name },
        ) => full_version@ == full && pre_name@ == name,
        _ => false,
    }
}

pub proof fn lemma_num_val_nonneg(s: Seq<char>)
    requires
        forall|k: int| 0 <= k < s.len() ==> is_digit(s[k]),
    ensures
        num_val(s) >= 0,
    decreases s.len(),
{
    if s.len() > 0 {
        assert(forall|k: int| 0 <= k < s.drop_last().len() ==> is_digit(s.drop_last()[k]));
        lemma_num_val_nonneg(s.drop_last());
    }
}

/// Read the value of a non-empty run of decimal digits, or report that it
/// does not fit in `u32`.
fn parse_counter(part: &str) -> (r: Result<u32, ()>)
    requires
        forall|k: int| 0 <= k < part@.len() ==> is_digit(part@[k]),
    ensures
        match r {
            Ok(v) => num_val(part@) <= u32::MAX && v == num_val(part@),
            Err(()) => num_val(part@) > u32::MAX,
        },
{
    let n = part.unicode_len();
    let mut j: usize = 0;
    let mut acc: u64 = 0;
    let mut over: bool = false;
    loop
        invariant
            0 <= j <= n,
            n == part@.len(),
            forall|k: int| 0 <= k < part@.len() ==> is_digit(part@[k]),
            over == (num_val(part@.subrange(0, j as int)) > u32::MAX),
            !over ==> acc == num_val(part@.subrange(0, j as int)),
            acc <= u32::MAX,
        decreases n - j,
    {
        if j >= n {
            proof {
                assert(part@.subrange(0, n as int) =~= part@);
            }
            if over {
                return Err(());
            } else {
                return Ok(acc as u32);
            }
        }
        let c = part.get_char(j);
        let d: u64 = (c as u32 - 48) as u64;
        proof {
            let pref = part@.subrange(0, j as int);
            let pref2 = part@.subrange(0, j as int + 1);
            assert(pref2.drop_last() =~= pref);
            assert(pref2.last() == part@[j as int]);
            assert(num_val(pref2) == num_val(pref) * 10 + digit_val(part@[j as int]));
            lemma_num_val_nonneg(pref);
        }
        if over {
        } else {
            let nv: u64 = acc * 10 + d;
            if nv > 0xFFFF_FFFF {
                over = true;
            } else {
                acc = nv;
            }
        }
        j = j + 1;
    }
}

/// The pre-release kind a tag names, or `None` for an unknown tag.
pub open spec fn pre_kind_spec(t: Seq<char>) -> Option<Prerelease> {
    if t == seq!['a'] || t == seq!['a', 'l', 'p', 'h', 'a'] {
        Some(Prerelease::Alpha)
    } else if t == seq!['b'] || t == seq!['b', 'e', 't', 'a'] {
        Some(Prerelease::Beta)
    } else if t == seq!['r', 'c'] || t == seq!['c'] || t == seq!['p', 'r', 'e'] || t == seq![
        'p',
        'r',
        'e',
        'v',
        'i',
        'e',
        'w',
    ] {
        Some(Prerelease::ReleaseCandidate)
    } else {
        None
    }
}

impl Prerelease {
    /// Read a pre-release tag name.
    pub fn from_str(s: &str) -> (r: Result<Prerelease, VersionParseError>)
        ensures
            match pre_kind_spec(s@) {
                Some(k) => r is Ok && r->Ok_0 == k,
                None => r is Err && version_err_matches(
                    r->Err_0,
                    VersionErrorSpec::PrereleaseParseError { full: s@, name: s@ },
                ),
            },
    {
        proof {
            reveal_strlit("preview");
            reveal_strlit("alpha");
            reveal_strlit("beta");
            reveal_strlit("pre");
            reveal_strlit("rc");
            reveal_strlit("a");
            reveal_strlit("b");
            reveal_strlit("c");
            assert("preview"@ =~= seq!['p', 'r', 'e', 'v', 'i', 'e', 'w']);
            assert("alpha"@ =~= seq!['a', 'l', 'p', 'h', 'a']);
            assert("beta"@ =~= seq!['b', 'e', 't', 'a']);
            assert("pre"@ =~= seq!['p', 'r', 'e']);
            assert("rc"@ =~= seq!['r', 'c']);
            assert("a"@ =~= seq!['a']);
            assert("b"@ =~= seq!['b']);
            assert("c"@ =~= seq!['c']);
        }
        let n = s.unicode_len();
        proof {
            assert(s@.subrange(0, s@.len() as int) =~= s@);
        }
        if (n == 1 && match_lit(s, n, 0, "a")) || (n == 5 && match_lit(s, n, 0, "alpha")) {
            Ok(Prerelease::Alpha)
        } else if (n == 1 && match_lit(s, n, 0, "b")) || (n == 4 && match_lit(s, n, 0, "beta")) {
            Ok(Prerelease::Beta)
        } else if (n == 2 && match_lit(s, n, 0, "rc")) || (n == 1 && match_lit(s, n, 0, "c")) || (n
            == 3 && match_lit(s, n, 0, "pre")) || (n == 7 && match_lit(s, n, 0, "preview")) {
            Ok(Prerelease::ReleaseCandidate)
        } else {
            Err(
                VersionParseError::PrereleaseParseError {
                    full_version: s.to_owned(),
                    pre_name: s.to_owned(),
                },
            )
        }
    }
}

/// A captured counter range holds at least one digit and nothing else.
pub open spec fn counter_digits_ok(s: Seq<char>, c: Option<(int, int)>) -> bool {
    match c {
        Some((a, b)) => 0 <= a < b <= s.len() && (forall|k: int| a <= k < b ==> is_digit(s[k])),
        None => true,
    }
}

/// Facts the grammar guarantees of an accepted string: every captured
/// counter is a non-empty digit run, and the pre-release tag names the kind
/// the captures record.
#[verifier::rlimit(80)]
pub proof fn lemma_captures_wf(s: Seq<char>)
    requires
        spec_captures(s) is Some,
    ensures
        ({
            let c = spec_captures(s)->0;
            &&& 0 <= c.rel_start <= c.rel_end <= s.len()
            &&& counter_digits_ok(s, c.epoch)
            &&& match c.pre {
                Some(pc) => counter_digits_ok(s, pc.counter) && 0 <= pc.tag_start <= pc.tag_end
                    <= s.len() && pre_kind_spec(s.subrange(pc.tag_start, pc.tag_end)) == Some(
                    pc.kind,
                ),
                None => true,
            }
            &&& match c.post {
                Some(PostCaps::Bare { group_start, n_start, n_end }) => counter_digits_ok(
                    s,
                    Some((n_start, n_end)),
                ),
                Some(PostCaps::Tagged(g)) => counter_digits_ok(s, g.counter),
                None => true,
            }
            &&& match c.dev {
                Some(g) => counter_digits_ok(s, g.counter) && 0 <= g.group_start <= g.end
                    <= s.len(),
                None => true,
            }
        }),
{
    let c = spec_captures(s)->0;
    let rs = rel_start(s);
    let re = rel_scan(s, rs);
    lemma_rel_scan(s, rs);
    lemma_digits_end(s, v_start(s));
    let pre = pre_caps(s, re);
    match pre {
        Some(pc) => {
            let i1 = if 0 <= re && re < s.len() && is_sep(s[re]) {
                re + 1
            } else {
                re
            };
            match pre_tag_at(s, i1) {
                Some((tl, kind)) => {
                    let i2 = i1 + tl;
                    let i3 = if i2 < s.len() && is_sep(s[i2]) {
                        i2 + 1
                    } else {
                        i2
                    };
                    lemma_digits_end(s, i3);
                    assert(pre_kind_spec(s.subrange(pc.tag_start, pc.tag_end)) == Some(pc.kind));
                },
                None => {
                    assert(false);
                },
            }
        },
        None => {},
    }
    let pre_end = match pre {
        Some(pc) => pc.end,
        None => re,
    };
    let post = post_caps(s, pre_end);
    match post {
        Some(PostCaps::Bare { group_start, n_start, n_end }) => {
            lemma_digits_end(s, n_start);
        },
        Some(PostCaps::Tagged(g)) => {
            let i1 = if 0 <= pre_end && pre_end < s.len() && is_sep(s[pre_end]) {
                pre_end + 1
            } else {
                pre_end
            };
            match post_tag_at(s, i1) {
                Some(tl) => {
                    let i2 = i1 + tl;
                    let i3 = if i2 < s.len() && is_sep(s[i2]) {
                        i2 + 1
                    } else {
                        i2
                    };
                    lemma_digits_end(s, i3);
                },
                None => {
                    assert(false);
                },
            }
        },
        None => {},
    }
    let post_end = match post {
        Some(po) => po.end(),
        None => pre_end,
    };
    let dev = dev_caps(s, post_end);
    match dev {
        Some(g) => {
            let i1 = if 0 <= post_end && post_end < s.len() && is_sep(s[post_end]) {
                post_end + 1
            } else {
                post_end
            };
            let i2 = i1 + 3;
            let i3 = if i2 < s.len() && is_sep(s[i2]) {
                i2 + 1
            } else {
                i2
            };
            lemma_digits_end(s, i3);
        },
        None => {},
    }
}

/// The value a counter range of the captures parses to, or `None` where the
/// group or its digits are absent.
pub open spec fn counter_part(s: Seq<char>, c: Option<(int, int)>) -> Option<Seq<char>> {
    match c {
        Some((a, b)) => Some(s.subrange(a, b)),
        None => None,
    }
}

/// The value of an optional counter: an absent counter defaults to zero, as
/// the grammar reads a bare tag.
pub open spec fn group_val(s: Seq<char>, c: Option<(int, int)>) -> int {
    match c {
        Some((a, b)) => num_val(s.subrange(a, b)),
        None => 0,
    }
}

/// What parsing a version string returns: the version with the epoch and
/// every counter read (a tag with no digits counts as zero), or the first
/// error in the order the parts are read.
pub open spec fn spec_parse(s: Seq<char>) -> Result<PEP440Version, VersionErrorSpec> {
    match spec_captures(s) {
        None => Err(VersionErrorSpec::NotThreeParts { full: s }),
        Some(c) => {
            let dev_part = match c.dev {
                Some(g) => counter_part(s, g.counter),
                None => None,
            };
            let post_part = match c.post {
                Some(PostCaps::Bare { group_start, n_start, n_end }) => Some(
                    s.subrange(n_start, n_end),
                ),
                Some(PostCaps::Tagged(g)) => counter_part(s, g.counter),
                None => None,
            };
            let pre_part = match c.pre {
                Some(pc) => counter_part(s, pc.counter),
                None => None,
            };
            let epoch_part = counter_part(s, c.epoch);
            if dev_part is Some && num_val(dev_part->0) > u32::MAX {
                Err(VersionErrorSpec::ParseIntError { full: s, part: dev_part->0 })
            } else if post_part is Some && num_val(post_part->0) > u32::MAX {
                Err(VersionErrorSpec::ParseIntError { full: s, part: post_part->0 })
            } else if pre_part is Some && num_val(pre_part->0) > u32::MAX {
                Err(VersionErrorSpec::ParseIntError { full: s, part: pre_part->0 })
            } else {
                let rel = s.subrange(c.rel_start, c.rel_end);
                let e1 = digits_end(rel, 0);
                let maj = rel.subrange(0, e1);
                let min_part = if e1 < rel.len() {
                    Some(rel.subrange(e1 + 1, digits_end(rel, e1 + 1)))
                } else {
                    None
                };
                let e2 = digits_end(rel, e1 + 1);
                let pat_part = if e1 < rel.len() && e2 < rel.len() {
                    Some(rel.subrange(e2 + 1, digits_end(rel, e2 + 1)))
                } else {
                    None
                };
                if num_val(maj) > u32::MAX {
                    Err(VersionErrorSpec::ParseIntError { full: s, part: maj })
                } else if min_part is Some && num_val(min_part->0) > u32::MAX {
                    Err(VersionErrorSpec::ParseIntError { full: s, part: min_part->0 })
                } else if pat_part is Some && num_val(pat_part->0) > u32::MAX {
                    Err(VersionErrorSpec::ParseIntError { full: s, part: pat_part->0 })
                } else if epoch_part is Some && num_val(epoch_part->0) > u32::MAX {
                    Err(VersionErrorSpec::ParseIntError { full: s, part: epoch_part->0 })
                } else {
                    Ok(
                        PEP440Version {
                            major: num_val(maj) as u32,
                            minor: match min_part {
                                Some(p) => num_val(p) as u32,
                                None => 0,
                            },
                            patch: match pat_part {
                                Some(p) => num_val(p) as u32,
                                None => 0,
                            },
                            epoch: group_val(s, c.epoch) as u32,
                            pre: match c.pre {
                                Some(pc) => Some((pc.kind, group_val(s, pc.counter) as u32)),
                                None => None,
                            },
                            post: match c.post {
                                Some(po) => Some(
                                    (match post_part {
                                        Some(p) => num_val(p),
                                        None => 0,
                                    }) as u32,
                                ),
                                None => None,
                            },
                            dev: match c.dev {
                                Some(g) => Some(group_val(s, g.counter) as u32),
                                None => None,
                            },
                        },
                    )
                }
            }
        },
    }
}

impl PEP440Version {
    /// Parse a version string, as `spec_parse` reads it.
    pub fn from_str(s: &str) -> (r: Result<PEP440Version, VersionParseError>)
        ensures
            (r is Ok) == (spec_parse(s@) is Ok),
            r is Ok ==> r->Ok_0 == spec_parse(s@)->Ok_0,
            r is Err ==> version_err_matches(r->Err_0, spec_parse(s@)->Err_0),
    {
        let caps = version_captures(s);
        match caps {
            None => Err(VersionParseError::NotThreeParts { full_version: s.to_owned() }),
            Some(c) => {
                proof {
                    lemma_captures_wf(s@);
                }
                let dev: Option<u32> = match &c.dev {
                    None => None,
                    Some(_) => match &c.dev_n {
                        Some(dn) => match parse_counter(dn.as_str()) {
                            Ok(v) => Some(v),
                            Err(()) => {
                                return Err(
                                    VersionParseError::ParseIntError {
                                        full_version: s.to_owned(),
                                        version_part: dn.clone(),
                                        parse_error: String::from_str(
                                            "number too large to fit in target type",
                                        ),
                                    },
                                );
                            },
                        },
                        None => Some(0),
                    },
                };
                let post: Option<u32> = match &c.post {
                    None => None,
                    Some(_) => match (&c.post_n1, &c.post_n2) {
                        (Some(pn), _) => match parse_counter(pn.as_str()) {
                            Ok(v) => Some(v),
                            Err(()) => {
                                return Err(
                                    VersionParseError::ParseIntError {
                                        full_version: s.to_owned(),
                                        version_part: pn.clone(),
                                        parse_error: String::from_str(
                                            "number too large to fit in target type",
                                        ),
                                    },
                                );
                            },
                        },
                        (None, Some(pn)) => match parse_counter(pn.as_str()) {
                            Ok(v) => Some(v),
                            Err(()) => {
                                return Err(
                                    VersionParseError::ParseIntError {
                                        full_version: s.to_owned(),
                                        version_part: pn.clone(),
                                        parse_error: String::from_str(
                                            "number too large to fit in target type",
                                        ),
                                    },
                                );
                            },
                        },
                        (None, None) => Some(0),
                    },
                };
                let pre: Option<(Prerelease, u32)> = match &c.pre_l {
                    None => None,
                    Some(l) => {
                        let kind = match Prerelease::from_str(l.as_str()) {
                            Ok(k) => k,
                            Err(e) => {
                                proof {
                                    assert(false);
                                }
                                return Err(e);
                            },
                        };
                        match &c.pre_n {
                            Some(pn) => match parse_counter(pn.as_str()) {
                                Ok(v) => Some((kind, v)),
                                Err(()) => {
                                    return Err(
                                        VersionParseError::ParseIntError {
                                            full_version: s.to_owned(),
                                            version_part: pn.clone(),
                                            parse_error: String::from_str(
                                                "number too large to fit in target type",
                                            ),
                                        },
                                    );
                                },
                            },
                            None => Some((kind, 0)),
                        }
                    },
                };
                let rel_s = c.release.as_str();
                let rn = rel_s.unicode_len();
                let e1 = scan_digits(rel_s, rn, 0);
                proof {
                    lemma_digits_end(c.release@, 0);
                }
                let maj_str = rel_s.substring_char(0, e1);
                let major = match parse_counter(maj_str) {
                    Ok(v) => v,
                    Err(()) => {
                        return Err(
                            VersionParseError::ParseIntError {
                                full_version: s.to_owned(),
                                version_part: maj_str.to_owned(),
                                parse_error: String::from_str(
                                    "number too large to fit in target type",
                                ),
                            },
                        );
                    },
                };
                let mut minor: u32 = 0;
                let mut patch: u32 = 0;
                if e1 < rn {
                    let e2 = scan_digits(rel_s, rn, e1 + 1);
                    proof {
                        lemma_digits_end(c.release@, e1 as int + 1);
                    }
                    let min_str = rel_s.substring_char(e1 + 1, e2);
                    minor = match parse_counter(min_str) {
                        Ok(v) => v,
                        Err(()) => {
                            return Err(
                                VersionParseError::ParseIntError {
                                    full_version: s.to_owned(),
                                    version_part: min_str.to_owned(),
                                    parse_error: String::from_str(
                                        "number too large to fit in target type",
                                    ),
                                },
                            );
                        },
                    };
                    if e2 < rn {
                        let e3 = scan_digits(rel_s, rn, e2 + 1);
                        proof {
                            lemma_digits_end(c.release@, e2 as int + 1);
                        }
                        let pat_str = rel_s.substring_char(e2 + 1, e3);
                        patch = match parse_counter(pat_str) {
                            Ok(v) => v,
                            Err(()) => {
                                return Err(
                                    VersionParseError::ParseIntError {
                                        full_version: s.to_owned(),
                                        version_part: pat_str.to_owned(),
                                        parse_error: String::from_str(
                                            "number too large to fit in target type",
                                        ),
                                    },
                                );
                            },
                        };
                    }
                }
                let epoch: u32 = match &c.epoch {
                    None => 0,
                    Some(ep) => match parse_counter(ep.as_str()) {
                        Ok(v) => v,
                        Err(()) => {
                            return Err(
                                VersionParseError::ParseIntError {
                                    full_version: s.to_owned(),
                                    version_part: ep.clone(),
                                    parse_error: String::from_str(
                                        "number too large to fit in target type",
                                    ),
                                },
                            );
                        },
                    },
                };
                Ok(PEP440Version { major, minor, patch, epoch, pre, post, dev })
            },
        }
    }

    /// Render the version for display.
    pub fn to_string(&self) -> (r: String)
        ensures
            r@ == version_chars(*self),
    {
        let mut s = String::new();
        push_u32(&mut s, self.major);
        proof {
            reveal_strlit(".");
            reveal_strlit("post");
            reveal_strlit("dev");
        }
        s.append(".");
        push_u32(&mut s, self.minor);
        s.append(".");
        push_u32(&mut s, self.patch);
        match &self.pre {
            None => {},
            Some((k, n)) => {
                let tag = k.to_string();
                s.append(tag.as_str());
                push_u32(&mut s, *n);
            },
        }
        match &self.post {
            None => {},
            Some(n) => {
                s.append("post");
                push_u32(&mut s, *n);
            },
        }
        match &self.dev {
            None => {},
            Some(n) => {
                s.append("dev");
                push_u32(&mut s, *n);
            },
        }
        proof {
            assert(s@ =~= version_chars(*self));
        }
        s
    }
}

/// Decimal renderings are non-empty digit runs carrying the rendered value.
pub proof fn lemma_dec_chars(n: int)
    requires
        n >= 0,
    ensures
        dec_chars(n).len() >= 1,
        forall|k: int| 0 <= k < dec_chars(n).len() ==> is_digit(dec_chars(n)[k]),
        num_val(dec_chars(n)) == n,
    decreases n,
{
    if n <= 9 {
        let s = dec_chars(n);
        assert(s == seq![digit_char(n)]);
        assert(s.drop_last() =~= Seq::<char>::empty());
        assert(s.last() == digit_char(n));
        assert(num_val(s) == num_val(s.drop_last()) * 10 + digit_val(s.last()));
        assert(num_val(Seq::<char>::empty()) == 0);
        assert(digit_val(digit_char(n)) == n);
    } else {
        lemma_dec_chars(n / 10);
        vstd::arithmetic::div_mod::lemma_fundamental_div_mod(n, 10);
        let base = dec_chars(n / 10);
        let s = dec_chars(n);
        assert(s == base.push(digit_char(n % 10)));
        assert(s.drop_last() =~= base);
        assert(s.last() == digit_char(n % 10));
        assert(num_val(s) == num_val(base) * 10 + digit_val(digit_char(n % 10)));
        assert(digit_val(digit_char(n % 10)) == n % 10);
    }
}

/// A digit run bounded by a non-digit or the end is exactly what the digit
/// scan finds.
pub proof fn lemma_digits_end_run(s: Seq<char>, i: int, j: int)
    requires
        0 <= i <= j <= s.len(),
        forall|k: int| i <= k < j ==> is_digit(s[k]),
        j < s.len() ==> !is_digit(s[j]),
    ensures
        digits_end(s, i) == j,
    decreases j - i,
{
    if i < j {
        lemma_digits_end_run(s, i + 1, j);
    }
}

/// A digit run is skipped whole by the release scan.
pub proof fn lemma_rel_scan_run(s: Seq<char>, i: int, j: int)
    requires
        0 <= i <= j <= s.len(),
        forall|k: int| i <= k < j ==> is_digit(s[k]),
    ensures
        rel_scan(s, i) == rel_scan(s, j),
    decreases j - i,
{
    if i < j {
        lemma_rel_scan_run(s, i + 1, j);
    }
}

/// A literal does not occur at `i` when some position of it disagrees.
proof fn lemma_no_match(s: Seq<char>, i: int, t: Seq<char>, k: int)
    requires
        0 <= k < t.len(),
        !(0 <= i && i + t.len() <= s.len()) || s[i + k] != t[k],
    ensures
        !match_at(s, i, t),
{
    if 0 <= i && i + t.len() <= s.len() {
        if s.subrange(i, i + t.len()) == t {
            assert(s.subrange(i, i + t.len())[k] == s[i + k]);
        }
    }
}

/// No pre-release group starts at the end of the string, at a dev tag, or at
/// a post tag.
proof fn lemma_pre_none_at(s: Seq<char>, i: int)
    requires
        0 <= i <= s.len(),
        i == s.len() || s[i] == 'd' || (s[i] == 'p' && i + 1 < s.len() && s[i + 1] == 'o'),
    ensures
        pre_caps(s, i) is None,
{
    if i < s.len() {
        assert(!is_sep(s[i]));
    }
    lemma_no_match(s, i, seq!['p', 'r', 'e', 'v', 'i', 'e', 'w'], if i < s.len() && s[i] == 'p' {
        1int
    } else {
        0int
    });
    lemma_no_match(s, i, seq!['a', 'l', 'p', 'h', 'a'], 0);
    lemma_no_match(s, i, seq!['b', 'e', 't', 'a'], 0);
    lemma_no_match(s, i, seq!['p', 'r', 'e'], if i < s.len() && s[i] == 'p' {
        1int
    } else {
        0int
    });
    lemma_no_match(s, i, seq!['r', 'c'], 0);
    lemma_no_match(s, i, seq!['a'], 0);
    lemma_no_match(s, i, seq!['b'], 0);
    lemma_no_match(s, i, seq!['c'], 0);
}

/// No post-release group starts at the end of the string or at a dev tag.
proof fn lemma_post_none_at(s: Seq<char>, i: int)
    requires
        0 <= i <= s.len(),
        i == s.len() || s[i] == 'd',
    ensures
        post_caps(s, i) is None,
{
    if i < s.len() {
        assert(!is_sep(s[i]));
        assert(s[i] != '-');
    }
    lemma_no_match(s, i, seq!['p', 'o', 's', 't'], 0);
    lemma_no_match(s, i, seq!['r', 'e', 'v'], 0);
    lemma_no_match(s, i, seq!['r'], 0);
}

/// A displayed pre-release group is captured exactly: its tag, then its
/// counter digits.
proof fn lemma_pre_group_at(s: Seq<char>, i: int, k: Prerelease, n: int)
    requires
        0 <= i,
        n >= 0,
        i + pre_tag_chars(k).len() + dec_chars(n).len() <= s.len(),
        s.subrange(i, i + pre_tag_chars(k).len()) == pre_tag_chars(k),
        s.subrange(
            i + pre_tag_chars(k).len(),
            i + pre_tag_chars(k).len() + dec_chars(n).len(),
        ) == dec_chars(n),
        ({
            let e = i + pre_tag_chars(k).len() + dec_chars(n).len();
            e == s.len() || !is_digit(s[e])
        }),
    ensures
        ({
            let tl = pre_tag_chars(k).len() as int;
            let e = i + tl + dec_chars(n).len();
            pre_caps(s, i) == Some(
                PreCaps {
                    group_start: i,
                    tag_start: i,
                    tag_end: i + tl,
                    kind: k,
                    counter: Some((i + tl, e)),
                    end: e,
                },
            )
        }),
{
    lemma_dec_chars(n);
    let tl = pre_tag_chars(k).len() as int;
    let e = i + tl + dec_chars(n).len();
    assert forall|m: int| 0 <= m < tl implies s[i + m] == pre_tag_chars(k)[m] by {
        assert(s.subrange(i, i + tl)[m] == s[i + m]);
    }
    assert forall|kk: int| i + tl <= kk < e implies is_digit(s[kk]) by {
        assert(s.subrange(i + tl, e)[kk - (i + tl)] == s[kk]);
    }
    assert(is_digit(s[i + tl]));
    match k {
        Prerelease::Alpha => {
            assert(s.subrange(i, i + 1)[0] == s[i]);
            assert(s[i] == 'a');
            assert(!is_sep(s[i]));
            lemma_no_match(s, i, seq!['p', 'r', 'e', 'v', 'i', 'e', 'w'], 0);
            lemma_no_match(s, i, seq!['a', 'l', 'p', 'h', 'a'], 1);
            lemma_no_match(s, i, seq!['b', 'e', 't', 'a'], 0);
            lemma_no_match(s, i, seq!['p', 'r', 'e'], 0);
            lemma_no_match(s, i, seq!['r', 'c'], 0);
            assert(s.subrange(i, i + 1) =~= seq!['a']);
            assert(pre_tag_at(s, i) == Some((1int, Prerelease::Alpha)));
        },
        Prerelease::Beta => {
            assert(s.subrange(i, i + 1)[0] == s[i]);
            assert(s[i] == 'b');
            assert(!is_sep(s[i]));
            lemma_no_match(s, i, seq!['p', 'r', 'e', 'v', 'i', 'e', 'w'], 0);
            lemma_no_match(s, i, seq!['a', 'l', 'p', 'h', 'a'], 0);
            lemma_no_match(s, i, seq!['b', 'e', 't', 'a'], 1);
            lemma_no_match(s, i, seq!['p', 'r', 'e'], 0);
            lemma_no_match(s, i, seq!['r', 'c'], 0);
            lemma_no_match(s, i, seq!['a'], 0);
            assert(s.subrange(i, i + 1) =~= seq!['b']);
            assert(pre_tag_at(s, i) == Some((1int, Prerelease::Beta)));
        },
        Prerelease::ReleaseCandidate => {
            assert(s.subrange(i, i + 2)[0] == s[i]);
            assert(s.subrange(i, i + 2)[1] == s[i + 1]);
            assert(s[i] == 'r');
            assert(s[i + 1] == 'c');
            assert(!is_sep(s[i]));
            lemma_no_match(s, i, seq!['p', 'r', 'e', 'v', 'i', 'e', 'w'], 0);
            lemma_no_match(s, i, seq!['a', 'l', 'p', 'h', 'a'], 0);
            lemma_no_match(s, i, seq!['b', 'e', 't', 'a'], 0);
            lemma_no_match(s, i, seq!['p', 'r', 'e'], 0);
            assert(s.subrange(i, i + 2) =~= seq!['r', 'c']);
            assert(pre_tag_at(s, i) == Some((2int, Prerelease::ReleaseCandidate)));
        },
    }
    assert(!is_sep(s[i + tl]));
    lemma_digits_end_run(s, i + tl, e);
}

/// A displayed post-release group is captured exactly.
proof fn lemma_post_group_at(s: Seq<char>, i: int, n: int)
    requires
        0 <= i,
        n >= 0,
        i + 4 + dec_chars(n).len() <= s.len(),
        s.subrange(i, i + 4) == seq!['p', 'o', 's', 't'],
        s.subrange(i + 4, i + 4 + dec_chars(n).len()) == dec_chars(n),
        ({
            let e = i + 4 + dec_chars(n).len();
            e == s.len() || !is_digit(s[e])
        }),
    ensures
        ({
            let e = i + 4 + dec_chars(n).len();
            post_caps(s, i) == Some(
                PostCaps::Tagged(GroupCaps { group_start: i, counter: Some((i + 4, e)), end: e }),
            )
        }),
{
    lemma_dec_chars(n);
    let e = i + 4 + dec_chars(n).len();
    assert forall|m: int| 0 <= m < 4 implies s[i + m] == seq!['p', 'o', 's', 't'][m] by {
        assert(s.subrange(i, i + 4)[m] == s[i + m]);
    }
    assert forall|kk: int| i + 4 <= kk < e implies is_digit(s[kk]) by {
        assert(s.subrange(i + 4, e)[kk - (i + 4)] == s[kk]);
    }
    assert(is_digit(s[i + 4]));
    assert(s[i] == 'p');
    assert(!is_sep(s[i]));
    assert(s[i] != '-');
    assert(post_tag_at(s, i) == Some(4int));
    assert(!is_sep(s[i + 4]));
    lemma_digits_end_run(s, i + 4, e);
}

/// A displayed dev-release group is captured exactly, running to the end of
/// the string.
proof fn lemma_dev_group_at(s: Seq<char>, i: int, n: int)
    requires
        0 <= i,
        n >= 0,
        i + 3 + dec_chars(n).len() == s.len(),
        s.subrange(i, i + 3) == seq!['d', 'e', 'v'],
        s.subrange(i + 3, s.len() as int) == dec_chars(n),
    ensures
        dev_caps(s, i) == Some(
            GroupCaps {
                group_start: i,
                counter: Some((i + 3, s.len() as int)),
                end: s.len() as int,
            },
        ),
{
    lemma_dec_chars(n);
    assert forall|m: int| 0 <= m < 3 implies s[i + m] == seq!['d', 'e', 'v'][m] by {
        assert(s.subrange(i, i + 3)[m] == s[i + m]);
    }
    assert forall|kk: int| i + 3 <= kk < s.len() implies is_digit(s[kk]) by {
        assert(s.subrange(i + 3, s.len() as int)[kk - (i + 3)] == s[kk]);
    }
    assert(is_digit(s[i + 3]));
    assert(s[i] == 'd');
    assert(!is_sep(s[i]));
    assert(match_at(s, i, seq!['d', 'e', 'v']));
    assert(!is_sep(s[i + 3]));
    lemma_digits_end_run(s, i + 3, s.len() as int);
}

/// The character layout of a displayed version: each part lies at its
/// computed offset.
spec fn display_chars(v: PEP440Version) -> bool {
    let s = version_chars(v);
    let a = dec_chars(v.major as int);
    let b = dec_chars(v.minor as int);
    let cc = dec_chars(v.patch as int);
    let p = (match v.pre {
        None => Seq::<char>::empty(),
        Some((k, n)) => pre_tag_chars(k) + dec_chars(n as int),
    });
    let q = (match v.post {
        None => Seq::<char>::empty(),
        Some(n) => seq!['p', 'o', 's', 't'] + dec_chars(n as int),
    });
    let d = (match v.dev {
        None => Seq::<char>::empty(),
        Some(n) => seq!['d', 'e', 'v'] + dec_chars(n as int),
    });
    let la = a.len() as int;
    let lb = b.len() as int;
    let lc = cc.len() as int;
    let re = la + 1 + lb + 1 + lc;
    let pe = re + p.len();
    let de = pe + q.len();
    &&& s.len() == de + d.len()
    &&& s.subrange(0, la) == a
    &&& s[la] == '.'
    &&& s.subrange(la + 1, la + 1 + lb) == b
    &&& s[la + 1 + lb] == '.'
    &&& s.subrange(la + 2 + lb, re) == cc
    &&& s.subrange(re, pe) == p
    &&& s.subrange(pe, de) == q
    &&& s.subrange(de, s.len() as int) == d
}

/// Where each part of a displayed version lies in its rendering.
spec fn display_layout(v: PEP440Version) -> bool {
    let s = version_chars(v);
    let a = dec_chars(v.major as int);
    let b = dec_chars(v.minor as int);
    let cc = dec_chars(v.patch as int);
    let la = a.len() as int;
    let lb = b.len() as int;
    let lc = cc.len() as int;
    let re = la + 1 + lb + 1 + lc;
    let pe = re + (match v.pre {
        Some((k, n)) => pre_tag_chars(k).len() + dec_chars(n as int).len(),
        None => 0,
    });
    let de = pe + (match v.post {
        Some(n) => 4 + dec_chars(n as int).len(),
        None => 0,
    });
    &&& spec_captures(s) is Some
    &&& spec_captures(s)->0.rel_start == 0
    &&& spec_captures(s)->0.rel_end == re
    &&& s.subrange(0, la) == a
    &&& s[la] == '.'
    &&& s.subrange(la + 1, la + 1 + lb) == b
    &&& s[la + 1 + lb] == '.'
    &&& s.subrange(la + 2 + lb, re) == cc
    &&& match v.pre {
        Some((k, n)) => spec_captures(s)->0.pre == Some(
            PreCaps {
                group_start: re,
                tag_start: re,
                tag_end: re + pre_tag_chars(k).len(),
                kind: k,
                counter: Some((re + pre_tag_chars(k).len(), pe)),
                end: pe,
            },
        ) && s.subrange(re + pre_tag_chars(k).len(), pe) == dec_chars(n as int),
        None => spec_captures(s)->0.pre is None,
    }
    &&& match v.post {
        Some(n) => spec_captures(s)->0.post == Some(
            PostCaps::Tagged(GroupCaps { group_start: pe, counter: Some((pe + 4, de)), end: de }),
        ) && s.subrange(pe + 4, de) == dec_chars(n as int),
        None => spec_captures(s)->0.post is None,
    }
    &&& match v.dev {
        Some(n) => spec_captures(s)->0.dev == Some(
            GroupCaps {
                group_start: de,
                counter: Some((de + 3, s.len() as int)),
                end: s.len() as int,
            },
        ) && s.subrange(de + 3, s.len() as int) == dec_chars(n as int) && s.len() == de + 3
            + dec_chars(n as int).len(),
        None => spec_captures(s)->0.dev is None && s.len() == de,
    }
}

/// The rendering of a version lays its parts end to end.
#[verifier::rlimit(100)]
proof fn lemma_display_chars(v: PEP440Version)
    ensures
        display_chars(v),
{
    let s = version_chars(v);
    let a = dec_chars(v.major as int);
    let b = dec_chars(v.minor as int);
    let cc = dec_chars(v.patch as int);
    lemma_dec_chars(v.major as int);
    lemma_dec_chars(v.minor as int);
    lemma_dec_chars(v.patch as int);
    let p: Seq<char> = match v.pre {
        None => Seq::<char>::empty(),
        Some((k, n)) => pre_tag_chars(k) + dec_chars(n as int),
    };
    let q: Seq<char> = match v.post {
        None => Seq::<char>::empty(),
        Some(n) => seq!['p', 'o', 's', 't'] + dec_chars(n as int),
    };
    let d: Seq<char> = match v.dev {
        None => Seq::<char>::empty(),
        Some(n) => seq!['d', 'e', 'v'] + dec_chars(n as int),
    };
    let dot = seq!['.'];
    let s1 = a + dot;
    let s2 = s1 + b;
    let s3 = s2 + dot;
    let s4 = s3 + cc;
    let s5 = s4 + p;
    let s6 = s5 + q;
    let s7 = s6 + d;
    assert(s =~= s7);
    let la = a.len() as int;
    let lb = b.len() as int;
    let lc = cc.len() as int;
    let re = la + 1 + lb + 1 + lc;
    let pe = re + p.len();
    let de = pe + q.len();
    let n_len = s.len() as int;
    assert(n_len == de + d.len());
    // Character layout of the rendering.
    assert forall|k: int| 0 <= k < la implies s[k] == a[k] by {
        assert(s[k] == s7[k]);
        assert(s7[k] == s6[k]);
        assert(s6[k] == s5[k]);
        assert(s5[k] == s4[k]);
        assert(s4[k] == s3[k]);
        assert(s3[k] == s2[k]);
        assert(s2[k] == s1[k]);
        assert(s1[k] == a[k]);
    }
    assert(s[la] == '.') by {
        assert(s7[la] == s6[la]);
        assert(s6[la] == s5[la]);
        assert(s5[la] == s4[la]);
        assert(s4[la] == s3[la]);
        assert(s3[la] == s2[la]);
        assert(s2[la] == s1[la]);
        assert(s1[la] == dot[0]);
    }
    assert forall|k: int| 0 <= k < lb implies s[la + 1 + k] == b[k] by {
        let j = la + 1 + k;
        assert(s7[j] == s6[j]);
        assert(s6[j] == s5[j]);
        assert(s5[j] == s4[j]);
        assert(s4[j] == s3[j]);
        assert(s3[j] == s2[j]);
        assert(s2[j] == b[j - s1.len()]);
    }
    assert(s[la + 1 + lb] == '.') by {
        let j = la + 1 + lb;
        assert(s7[j] == s6[j]);
        assert(s6[j] == s5[j]);
        assert(s5[j] == s4[j]);
        assert(s4[j] == s3[j]);
        assert(s3[j] == dot[j - s2.len()]);
    }
    assert forall|k: int| 0 <= k < lc implies s[la + 2 + lb + k] == cc[k] by {
        let j = la + 2 + lb + k;
        assert(s7[j] == s6[j]);
        assert(s6[j] == s5[j]);
        assert(s5[j] == s4[j]);
        assert(s4[j] == cc[j - s3.len()]);
    }
    assert forall|k: int| 0 <= k < p.len() implies s[re + k] == p[k] by {
        let j = re + k;
        assert(s7[j] == s6[j]);
        assert(s6[j] == s5[j]);
        assert(s5[j] == p[j - s4.len()]);
    }
    assert forall|k: int| 0 <= k < q.len() implies s[pe + k] == q[k] by {
        let j = pe + k;
        assert(s7[j] == s6[j]);
        assert(s6[j] == q[j - s5.len()]);
    }
    assert forall|k: int| 0 <= k < d.len() implies s[de + k] == d[k] by {
        let j = de + k;
        assert(s7[j] == d[j - s6.len()]);
    }
    assert(s.subrange(0, la) =~= a);
    assert(s.subrange(la + 1, la + 1 + lb) =~= b);
    assert(s.subrange(la + 2 + lb, re) =~= cc);
    assert(s.subrange(re, pe) =~= p);
    assert(s.subrange(pe, de) =~= q);
    assert(s.subrange(de, n_len) =~= d);
}

/// The display grammar positions: the scan of a rendered version stops at
/// the boundaries the rendering used.
spec fn display_scan(v: PEP440Version) -> bool {
    let s = version_chars(v);
    let la = dec_chars(v.major as int).len() as int;
    let lb = dec_chars(v.minor as int).len() as int;
    let lc = dec_chars(v.patch as int).len() as int;
    let re = la + 1 + lb + 1 + lc;
    &&& v_start(s) == 0
    &&& epoch_caps(s) is None
    &&& rel_start(s) == 0
    &&& 0 < re <= s.len()
    &&& is_digit(s[0])
    &&& rel_scan(s, 0) == re
}

/// The groups of a rendered version are found exactly where the rendering
/// put them.
spec fn display_groups(v: PEP440Version) -> bool {
    let s = version_chars(v);
    let la = dec_chars(v.major as int).len() as int;
    let lb = dec_chars(v.minor as int).len() as int;
    let lc = dec_chars(v.patch as int).len() as int;
    let re = la + 1 + lb + 1 + lc;
    let pe = re + (match v.pre {
        Some((k, n)) => pre_tag_chars(k).len() + dec_chars(n as int).len(),
        None => 0,
    });
    let de = pe + (match v.post {
        Some(n) => 4 + dec_chars(n as int).len(),
        None => 0,
    });
    &&& match v.pre {
        Some((k, n)) => pre_caps(s, re) == Some(
            PreCaps {
                group_start: re,
                tag_start: re,
                tag_end: re + pre_tag_chars(k).len(),
                kind: k,
                counter: Some((re + pre_tag_chars(k).len(), pe)),
                end: pe,
            },
        ),
        None => pre_caps(s, re) is None,
    }
    &&& match v.post {
        Some(n) => post_caps(s, pe) == Some(
            PostCaps::Tagged(GroupCaps { group_start: pe, counter: Some((pe + 4, de)), end: de }),
        ),
        None => post_caps(s, pe) is None,
    }
    &&& match v.dev {
        Some(n) => dev_caps(s, de) == Some(
            GroupCaps {
                group_start: de,
                counter: Some((de + 3, s.len() as int)),
                end: s.len() as int,
            },
        ) && s.len() == de + 3 + dec_chars(n as int).len(),
        None => dev_caps(s, de) is None && s.len() == de,
    }
}

/// The release region of a rendered version scans to its closing boundary.
#[verifier::rlimit(100)]
proof fn lemma_display_scan(v: PEP440Version)
    requires
        display_chars(v),
    ensures
        display_scan(v),
{
    let s = version_chars(v);
    let a = dec_chars(v.major as int);
    let b = dec_chars(v.minor as int);
    let cc = dec_chars(v.patch as int);
    lemma_dec_chars(v.major as int);
    lemma_dec_chars(v.minor as int);
    lemma_dec_chars(v.patch as int);
    let p: Seq<char> = match v.pre {
        None => Seq::<char>::empty(),
        Some((k, n)) => pre_tag_chars(k) + dec_chars(n as int),
    };
    let q: Seq<char> = match v.post {
        None => Seq::<char>::empty(),
        Some(n) => seq!['p', 'o', 's', 't'] + dec_chars(n as int),
    };
    let d: Seq<char> = match v.dev {
        None => Seq::<char>::empty(),
        Some(n) => seq!['d', 'e', 'v'] + dec_chars(n as int),
    };
    let la = a.len() as int;
    let lb = b.len() as int;
    let lc = cc.len() as int;
    let re = la + 1 + lb + 1 + lc;
    let pe = re + p.len();
    let de = pe + q.len();
    let n_len = s.len() as int;
    assert(n_len == de + d.len());
    assert forall|k: int| 0 <= k < la implies s[k] == a[k] by {
        assert(s.subrange(0, la)[k] == s[k]);
    }
    assert forall|k: int| 0 <= k < lb implies s[la + 1 + k] == b[k] by {
        assert(s.subrange(la + 1, la + 1 + lb)[k] == s[la + 1 + k]);
    }
    assert forall|k: int| 0 <= k < lc implies s[la + 2 + lb + k] == cc[k] by {
        assert(s.subrange(la + 2 + lb, re)[k] == s[la + 2 + lb + k]);
    }
    assert forall|k: int| 0 <= k < p.len() implies s[re + k] == p[k] by {
        assert(s.subrange(re, pe)[k] == s[re + k]);
    }
    assert forall|k: int| 0 <= k < q.len() implies s[pe + k] == q[k] by {
        assert(s.subrange(pe, de)[k] == s[pe + k]);
    }
    assert forall|k: int| 0 <= k < d.len() implies s[de + k] == d[k] by {
        assert(s.subrange(de, n_len)[k] == s[de + k]);
    }
    // The release region.
    assert(!is_digit('.'));
    assert(v_start(s) == 0);
    lemma_digits_end_run(s, 0, la);
    assert(epoch_caps(s) is None);
    assert(rel_start(s) == 0);
    lemma_rel_scan_run(s, 0, la);
    assert(is_digit(s[la + 1]));
    assert(rel_scan(s, la) == rel_scan(s, la + 2));
    lemma_rel_scan_run(s, la + 2, la + 1 + lb);
    assert(is_digit(s[la + 2 + lb]));
    assert(rel_scan(s, la + 1 + lb) == rel_scan(s, la + 3 + lb));
    lemma_rel_scan_run(s, la + 3 + lb, re);
    // The terminator after the release region.
    if v.pre is Some {
        match v.pre {
            Some((Prerelease::Alpha, _)) => {
                assert(s[re + 0] == p[0]);
                assert(s[re] == 'a');
            },
            Some((Prerelease::Beta, _)) => {
                assert(s[re + 0] == p[0]);
                assert(s[re] == 'b');
            },
            Some((Prerelease::ReleaseCandidate, _)) => {
                assert(s[re + 0] == p[0]);
                assert(s[re] == 'r');
            },
            None => {},
        }
    } else if v.post is Some {
        assert(p.len() == 0);
        assert(s[re + 0] == q[0]);
        assert(s[re] == 'p');
    } else if v.dev is Some {
        assert(p.len() == 0 && q.len() == 0);
        assert(s[re + 0] == d[0]);
        assert(s[re] == 'd');
    } else {
        assert(re == n_len);
    }
    assert(rel_scan(s, re) == re);
    assert(rel_scan(s, 0) == re);}

/// Each displayed group is captured exactly.
#[verifier::rlimit(100)]
proof fn lemma_display_groups(v: PEP440Version)
    requires
        display_chars(v),
    ensures
        display_groups(v),
{
    let s = version_chars(v);
    let a = dec_chars(v.major as int);
    let b = dec_chars(v.minor as int);
    let cc = dec_chars(v.patch as int);
    lemma_dec_chars(v.major as int);
    lemma_dec_chars(v.minor as int);
    lemma_dec_chars(v.patch as int);
    let p: Seq<char> = match v.pre {
        None => Seq::<char>::empty(),
        Some((k, n)) => pre_tag_chars(k) + dec_chars(n as int),
    };
    let q: Seq<char> = match v.post {
        None => Seq::<char>::empty(),
        Some(n) => seq!['p', 'o', 's', 't'] + dec_chars(n as int),
    };
    let d: Seq<char> = match v.dev {
        None => Seq::<char>::empty(),
        Some(n) => seq!['d', 'e', 'v'] + dec_chars(n as int),
    };
    let la = a.len() as int;
    let lb = b.len() as int;
    let lc = cc.len() as int;
    let re = la + 1 + lb + 1 + lc;
    let pe = re + p.len();
    let de = pe + q.len();
    let n_len = s.len() as int;
    assert(n_len == de + d.len());
    assert forall|k: int| 0 <= k < la implies s[k] == a[k] by {
        assert(s.subrange(0, la)[k] == s[k]);
    }
    assert forall|k: int| 0 <= k < lb implies s[la + 1 + k] == b[k] by {
        assert(s.subrange(la + 1, la + 1 + lb)[k] == s[la + 1 + k]);
    }
    assert forall|k: int| 0 <= k < lc implies s[la + 2 + lb + k] == cc[k] by {
        assert(s.subrange(la + 2 + lb, re)[k] == s[la + 2 + lb + k]);
    }
    assert forall|k: int| 0 <= k < p.len() implies s[re + k] == p[k] by {
        assert(s.subrange(re, pe)[k] == s[re + k]);
    }
    assert forall|k: int| 0 <= k < q.len() implies s[pe + k] == q[k] by {
        assert(s.subrange(pe, de)[k] == s[pe + k]);
    }
    assert forall|k: int| 0 <= k < d.len() implies s[de + k] == d[k] by {
        assert(s.subrange(de, n_len)[k] == s[de + k]);
    }
    // The pre-release group.
    match v.pre {
        Some((k, n)) => {
            let tl = pre_tag_chars(k).len() as int;
            let dl = dec_chars(n as int).len() as int;
            assert(p.len() == tl + dl);
            assert(s.subrange(re, re + tl) =~= pre_tag_chars(k)) by {
                assert forall|m: int|
                    0 <= m < tl implies s.subrange(re, re + tl)[m] == pre_tag_chars(k)[m] by {
                    assert(s.subrange(re, re + tl)[m] == s[re + m]);
                    assert(s[re + m] == p[m]);
                    assert(p[m] == pre_tag_chars(k)[m]);
                }
            }
            assert(s.subrange(re + tl, re + tl + dl) =~= dec_chars(n as int)) by {
                assert forall|m: int|
                    0 <= m < dl implies s.subrange(re + tl, re + tl + dl)[m] == dec_chars(
                        n as int,
                    )[m] by {
                    assert(s.subrange(re + tl, re + tl + dl)[m] == s[re + (tl + m)]);
                    assert(s[re + (tl + m)] == p[tl + m]);
                    assert(p[tl + m] == dec_chars(n as int)[m]);
                }
            }
            if pe < n_len {
                if v.post is Some {
                    assert(s[pe + 0] == q[0]);
                    assert(s[pe] == 'p');
                } else {
                    assert(q.len() == 0);
                    assert(s[pe + 0] == d[0]);
                    assert(s[pe] == 'd');
                }
                assert(!is_digit(s[pe]));
            }
            lemma_pre_group_at(s, re, k, n as int);
        },
        None => {
            if v.post is Some {
                assert(s[re + 1] == q[1]);
                assert(s[re + 1] == 'o');
            }
            lemma_pre_none_at(s, re);
        },
    }
    assert(pe == (match pre_caps(s, re) {
        Some(pc) => pc.end,
        None => re,
    }));
    // The post-release group.
    match v.post {
        Some(n) => {
            let dl = dec_chars(n as int).len() as int;
            assert(q.len() == 4 + dl);
            assert(s.subrange(pe, pe + 4) =~= seq!['p', 'o', 's', 't']) by {
                assert forall|m: int|
                    0 <= m < 4 implies s.subrange(pe, pe + 4)[m] == seq!['p', 'o', 's', 't'][m] by {
                    assert(s.subrange(pe, pe + 4)[m] == s[pe + m]);
                    assert(s[pe + m] == q[m]);
                }
            }
            assert(s.subrange(pe + 4, pe + 4 + dl) =~= dec_chars(n as int)) by {
                assert forall|m: int|
                    0 <= m < dl implies s.subrange(pe + 4, pe + 4 + dl)[m] == dec_chars(
                        n as int,
                    )[m] by {
                    assert(s.subrange(pe + 4, pe + 4 + dl)[m] == s[pe + (4 + m)]);
                    assert(s[pe + (4 + m)] == q[4 + m]);
                    assert(q[4 + m] == dec_chars(n as int)[m]);
                }
            }
            if de < n_len {
                assert(s[de + 0] == d[0]);
                assert(s[de] == 'd');
                assert(!is_digit(s[de]));
            }
            lemma_post_group_at(s, pe, n as int);
        },
        None => {
            if v.dev is Some {
                assert(s[pe + 0] == d[0]);
                assert(s[pe] == 'd');
            }
            lemma_post_none_at(s, pe);
        },
    }
    assert(de == (match post_caps(s, pe) {
        Some(po) => po.end(),
        None => pe,
    }));
    // The dev-release group.
    match v.dev {
        Some(n) => {
            let dl = dec_chars(n as int).len() as int;
            assert(d.len() == 3 + dl);
            assert(s.subrange(de, de + 3) =~= seq!['d', 'e', 'v']) by {
                assert forall|m: int|
                    0 <= m < 3 implies s.subrange(de, de + 3)[m] == seq!['d', 'e', 'v'][m] by {
                    assert(s.subrange(de, de + 3)[m] == s[de + m]);
                    assert(s[de + m] == d[m]);
                }
            }
            assert(s.subrange(de + 3, n_len) =~= dec_chars(n as int)) by {
                assert forall|m: int|
                    0 <= m < dl implies s.subrange(de + 3, n_len)[m] == dec_chars(n as int)[m] by {
                    assert(s.subrange(de + 3, n_len)[m] == s[de + (3 + m)]);
                    assert(s[de + (3 + m)] == d[3 + m]);
                    assert(d[3 + m] == dec_chars(n as int)[m]);
                }
            }
            lemma_dev_group_at(s, de, n as int);
        },
        None => {
            assert(de == n_len);
            lemma_no_match(s, de, seq!['d', 'e', 'v'], 0);
            assert(dev_caps(s, de) is None);
        },
    }}

/// A displayed version is accepted by the grammar, and its parts are
/// captured exactly where the rendering put them.
#[verifier::rlimit(100)]
proof fn lemma_display_captures(v: PEP440Version)
    ensures
        display_layout(v),
{
    lemma_display_chars(v);
    lemma_display_scan(v);
    lemma_display_groups(v);
    let s = version_chars(v);
    let a = dec_chars(v.major as int);
    let b = dec_chars(v.minor as int);
    let cc = dec_chars(v.patch as int);
    lemma_dec_chars(v.major as int);
    lemma_dec_chars(v.minor as int);
    lemma_dec_chars(v.patch as int);
    let p: Seq<char> = match v.pre {
        None => Seq::<char>::empty(),
        Some((k, n)) => pre_tag_chars(k) + dec_chars(n as int),
    };
    let q: Seq<char> = match v.post {
        None => Seq::<char>::empty(),
        Some(n) => seq!['p', 'o', 's', 't'] + dec_chars(n as int),
    };
    let d: Seq<char> = match v.dev {
        None => Seq::<char>::empty(),
        Some(n) => seq!['d', 'e', 'v'] + dec_chars(n as int),
    };
    let la = a.len() as int;
    let lb = b.len() as int;
    let lc = cc.len() as int;
    let re = la + 1 + lb + 1 + lc;
    let pe = re + p.len();
    let de = pe + q.len();
    let n_len = s.len() as int;
    assert(n_len == de + d.len());
    assert forall|k: int| 0 <= k < la implies s[k] == a[k] by {
        assert(s.subrange(0, la)[k] == s[k]);
    }
    assert forall|k: int| 0 <= k < lb implies s[la + 1 + k] == b[k] by {
        assert(s.subrange(la + 1, la + 1 + lb)[k] == s[la + 1 + k]);
    }
    assert forall|k: int| 0 <= k < lc implies s[la + 2 + lb + k] == cc[k] by {
        assert(s.subrange(la + 2 + lb, re)[k] == s[la + 2 + lb + k]);
    }
    assert forall|k: int| 0 <= k < p.len() implies s[re + k] == p[k] by {
        assert(s.subrange(re, pe)[k] == s[re + k]);
    }
    assert forall|k: int| 0 <= k < q.len() implies s[pe + k] == q[k] by {
        assert(s.subrange(pe, de)[k] == s[pe + k]);
    }
    assert forall|k: int| 0 <= k < d.len() implies s[de + k] == d[k] by {
        assert(s.subrange(de, n_len)[k] == s[de + k]);
    }
    assert(pe == re + (match v.pre {
        Some((k, n)) => pre_tag_chars(k).len() + dec_chars(n as int).len(),
        None => 0,
    }));
    assert(de == pe + (match v.post {
        Some(n) => 4 + dec_chars(n as int).len(),
        None => 0,
    }));
    assert(match v.dev {
        Some(n) => dev_caps(s, de) is Some && dev_caps(s, de)->0.end == n_len,
        None => dev_caps(s, de) is None && de == n_len,
    });
    assert(spec_captures(s) is Some);
    let c = spec_captures(s)->0;
    assert(c.rel_start == 0 && c.rel_end == re);
    assert(c.pre == pre_caps(s, re));
    assert(c.post == post_caps(s, pe));
    assert(c.dev == dev_caps(s, de));
    match v.pre {
        Some((k, n)) => {
            let tl = pre_tag_chars(k).len() as int;
            let dl = dec_chars(n as int).len() as int;
            assert(s.subrange(re + tl, pe) =~= dec_chars(n as int)) by {
                assert forall|m: int|
                    0 <= m < dl implies s.subrange(re + tl, pe)[m] == dec_chars(n as int)[m] by {
                    assert(s.subrange(re + tl, pe)[m] == s[re + (tl + m)]);
                    assert(s[re + (tl + m)] == p[tl + m]);
                    assert(p[tl + m] == dec_chars(n as int)[m]);
                }
            }
        },
        None => {},
    }
    match v.post {
        Some(n) => {
            let dl = dec_chars(n as int).len() as int;
            assert(s.subrange(pe + 4, de) =~= dec_chars(n as int)) by {
                assert forall|m: int|
                    0 <= m < dl implies s.subrange(pe + 4, de)[m] == dec_chars(n as int)[m] by {
                    assert(s.subrange(pe + 4, de)[m] == s[pe + (4 + m)]);
                    assert(s[pe + (4 + m)] == q[4 + m]);
                    assert(q[4 + m] == dec_chars(n as int)[m]);
                }
            }
        },
        None => {},
    }
    match v.dev {
        Some(n) => {
            let dl = dec_chars(n as int).len() as int;
            assert(s.subrange(de + 3, n_len) =~= dec_chars(n as int)) by {
                assert forall|m: int|
                    0 <= m < dl implies s.subrange(de + 3, n_len)[m] == dec_chars(n as int)[m] by {
                    assert(s.subrange(de + 3, n_len)[m] == s[de + (3 + m)]);
                    assert(s[de + (3 + m)] == d[3 + m]);
                    assert(d[3 + m] == dec_chars(n as int)[m]);
                }
            }
        },
        None => {},
    }
    assert(display_layout(v));
}

/// Round-trip law: parsing a displayed version succeeds and recovers the
/// release numbers, the pre-release kind and counter, and the post- and
/// dev-release counters.  The epoch comes back as zero and the display holds
/// no local segment, as the display deliberately re-emits neither.
#[verifier::rlimit(100)]
pub proof fn lemma_display_parse_round_trip(v: PEP440Version)
    ensures
        spec_parse(version_chars(v)) is Ok,
        ({
            let w = spec_parse(version_chars(v))->Ok_0;
            &&& w.major == v.major
            &&& w.minor == v.minor
            &&& w.patch == v.patch
            &&& w.pre == v.pre
            &&& w.post == v.post
            &&& w.dev == v.dev
            &&& w.epoch == 0
        }),
{
    lemma_display_captures(v);
    let s = version_chars(v);
    let a = dec_chars(v.major as int);
    let b = dec_chars(v.minor as int);
    let cc = dec_chars(v.patch as int);
    lemma_dec_chars(v.major as int);
    lemma_dec_chars(v.minor as int);
    lemma_dec_chars(v.patch as int);
    let la = a.len() as int;
    let lb = b.len() as int;
    let lc = cc.len() as int;
    let re = la + 1 + lb + 1 + lc;
    let pe = re + (match v.pre {
        Some((k, n)) => pre_tag_chars(k).len() + dec_chars(n as int).len() as int,
        None => 0int,
    });
    let de = pe + (match v.post {
        Some(n) => 4 + dec_chars(n as int).len() as int,
        None => 0int,
    });
    let n_len = s.len() as int;
    let c = spec_captures(s)->0;
    match v.pre {
        Some((k, n)) => {
            lemma_dec_chars(n as int);
            let tl = pre_tag_chars(k).len() as int;
            assert(counter_part(s, c.pre->0.counter) == Some(s.subrange(re + tl, pe)));
            assert(num_val(s.subrange(re + tl, pe)) == n);
        },
        None => {},
    }
    match v.post {
        Some(n) => {
            lemma_dec_chars(n as int);
            assert(counter_part(s, c.post->0->Tagged_0.counter) == Some(s.subrange(pe + 4, de)));
            assert(num_val(s.subrange(pe + 4, de)) == n);
        },
        None => {},
    }
    match v.dev {
        Some(n) => {
            lemma_dec_chars(n as int);
            assert(counter_part(s, c.dev->0.counter) == Some(s.subrange(de + 3, n_len)));
            assert(num_val(s.subrange(de + 3, n_len)) == n);
        },
        None => {},
    }
    assert forall|k: int| 0 <= k < la implies is_digit(s[k]) by {
        assert(s.subrange(0, la)[k] == s[k]);
    }
    assert forall|k: int| la + 1 <= k < la + 1 + lb implies is_digit(s[k]) by {
        assert(s.subrange(la + 1, la + 1 + lb)[k - (la + 1)] == s[k]);
    }
    assert forall|k: int| la + 2 + lb <= k < re implies is_digit(s[k]) by {
        assert(s.subrange(la + 2 + lb, re)[k - (la + 2 + lb)] == s[k]);
    }
    let rel = s.subrange(0, re);
    assert(rel.len() == re);
    assert forall|k: int| 0 <= k < re implies rel[k] == s[k] by {
        assert(rel[k] == s[k]);
    }
    lemma_digits_end_run(rel, 0, la);
    assert(rel.subrange(0, la) =~= a) by {
        assert forall|m: int| 0 <= m < la implies rel.subrange(0, la)[m] == a[m] by {
            assert(rel.subrange(0, la)[m] == rel[m]);
            assert(s.subrange(0, la)[m] == s[m]);
        }
    }
    assert(num_val(rel.subrange(0, la)) == v.major);
    lemma_digits_end_run(rel, la + 1, la + 1 + lb);
    assert(rel.subrange(la + 1, la + 1 + lb) =~= b) by {
        assert forall|m: int| 0 <= m < lb implies rel.subrange(la + 1, la + 1 + lb)[m] == b[m] by {
            assert(rel.subrange(la + 1, la + 1 + lb)[m] == rel[la + 1 + m]);
            assert(s.subrange(la + 1, la + 1 + lb)[m] == s[la + 1 + m]);
        }
    }
    assert(num_val(rel.subrange(la + 1, la + 1 + lb)) == v.minor);
    lemma_digits_end_run(rel, la + 2 + lb, re);
    assert(rel.subrange(la + 2 + lb, re) =~= cc) by {
        assert forall|m: int| 0 <= m < lc implies rel.subrange(la + 2 + lb, re)[m] == cc[m] by {
            assert(rel.subrange(la + 2 + lb, re)[m] == rel[la + 2 + lb + m]);
            assert(s.subrange(la + 2 + lb, re)[m] == s[la + 2 + lb + m]);
        }
    }
    assert(num_val(rel.subrange(la + 2 + lb, re)) == v.patch);
    assert(spec_parse(s) is Ok);
}


/// The precedence order is total and transitive, and versions agreeing on
/// every ordering axis are order-equivalent, whatever their pre-release
/// marker says.
pub proof fn lemma_precedence_order(a: PEP440Version, b: PEP440Version, c: PEP440Version)
    ensures
        key_le(a, b) || key_le(b, a),
        key_le(a, b) && key_le(b, c) ==> key_le(a, c),
        key_le(a, b) && key_le(b, a) ==> key_eq(a, b),
        a.epoch == b.epoch && a.major == b.major && a.minor == b.minor && a.patch == b.patch
            && a.post == b.post && a.dev == b.dev ==> key_eq(a, b),
{
}

} // verus!
