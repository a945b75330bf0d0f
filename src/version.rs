use vstd::prelude::*;
use vstd::arithmetic::div_mod::{lemma_fundamental_div_mod, lemma_hoist_over_denominator};
use vstd::string::*;

use crate::text::{find_char, find_from, lemma_find_from_at, lemma_find_from_bounds, same_text};

verus! {

/// A score of `SCALE` stands for 1.0; every score lies in `0..=SCALE`.
pub const SCALE: u128 = 1_000_000_000_000_000_000;

/// `ROOT * ROOT == SCALE`.
pub const ROOT: u128 = 1_000_000_000;

/// A candidate's version: a numeric triple and a channel tag such as `stable`.
#[derive(Clone, Debug)]
pub struct Version {
    pub major: u64,
    pub minor: u64,
    pub patch: u64,
    pub channel: String,
}

pub open spec fn is_digit(c: char) -> bool {
    '0' <= c <= '9'
}

pub open spec fn all_digits(d: Seq<char>) -> bool {
    forall|i: int| 0 <= i < d.len() ==> is_digit(#[trigger] d[i])
}

/// The number that a run of decimal digits denotes.
pub open spec fn digits_value(d: Seq<char>) -> nat
    decreases d.len(),
{
    if d.len() == 0 {
        0
    } else {
        digits_value(d.drop_last()) * 10 + (d.last() as nat - '0' as nat) as nat
    }
}

/// The digits of a segment, without the one `+` sign that may lead them.
pub open spec fn unsigned_digits(g: Seq<char>) -> Seq<char> {
    if g.len() > 0 && g[0] == '+' {
        g.drop_first()
    } else {
        g
    }
}

/// The value of one numeric segment: a `u64` written in decimal, with an
/// optional leading `+`; anything else (empty, a stray character, too large)
/// counts as 0.
pub open spec fn segment_value(g: Seq<char>) -> u64 {
    let d = unsigned_digits(g);
    if d.len() > 0 && all_digits(d) && digits_value(d) <= u64::MAX {
        digits_value(d) as u64
    } else {
        0
    }
}

/// The text before the first `-`.
pub open spec fn numeric_part(s: Seq<char>) -> Seq<char> {
    s.subrange(0, find_from(s, '-', 0))
}

/// The text after the first `-`, or `stable` where there is no `-`.
pub open spec fn channel_part(s: Seq<char>) -> Seq<char> {
    let dash = find_from(s, '-', 0);
    if dash < s.len() {
        s.subrange(dash + 1, s.len() as int)
    } else {
        "stable"@
    }
}

/// Where the `k`-th `.`-separated segment of `t` begins; `None` where `t`
/// has fewer than `k` dots.
pub open spec fn segment_start(t: Seq<char>, k: nat) -> Option<int>
    decreases k,
{
    if k == 0 {
        Some(0)
    } else {
        match segment_start(t, (k - 1) as nat) {
            Some(p) => {
                let e = find_from(t, '.', p);
                if e < t.len() {
                    Some(e + 1)
                } else {
                    None
                }
            },
            None => None,
        }
    }
}

/// The value of the `k`-th `.`-separated segment of `t`; 0 where it is absent.
pub open spec fn field(t: Seq<char>, k: nat) -> u64 {
    match segment_start(t, k) {
        Some(p) => segment_value(t.subrange(p, find_from(t, '.', p))),
        None => 0,
    }
}

/// Out of 20: `stable` and `lts` 20, `legacy` 16, `experimental` 12, any other 15.
pub open spec fn channel_factor(channel: Seq<char>) -> nat {
    if channel == "stable"@ || channel == "lts"@ {
        20
    } else if channel == "legacy"@ {
        16
    } else if channel == "experimental"@ {
        12
    } else {
        15
    }
}

pub open spec fn version_base(v: Version) -> nat {
    v.major as nat * 100 + v.minor as nat * 10 + v.patch as nat
}

/// `base / (base + 100)`, times the channel's factor, in units of `1 / SCALE`
/// and rounded down. The ratio stays below 1 for every base.
pub open spec fn semver_weight_of(v: Version) -> nat {
    (SCALE as nat * version_base(v) * channel_factor(v.channel@)) / ((version_base(v) + 100) * 20)
}

/// Whether `(a.major, a.minor, a.patch)` is lexicographically greater than `b`'s.
pub open spec fn triple_greater(a: Version, b: Version) -> bool {
    a.major > b.major || (a.major == b.major && (a.minor > b.minor || (a.minor == b.minor
        && a.patch > b.patch)))
}

proof fn lemma_digits_grow(d: Seq<char>, j: int)
    requires
        0 <= j <= d.len(),
        all_digits(d),
    ensures
        digits_value(d.subrange(0, j)) <= digits_value(d),
    decreases d.len(),
{
    if j < d.len() {
        assert(d.drop_last().subrange(0, j) =~= d.subrange(0, j));
        lemma_digits_grow(d.drop_last(), j);
    } else {
        assert(d.subrange(0, j) =~= d);
    }
}

/// The value of `t[from..to]` read as one numeric segment.
fn segment_number(t: &str, from: usize, to: usize) -> (r: u64)
    requires
        from <= to <= t@.len(),
    ensures
        r == segment_value(t@.subrange(from as int, to as int)),
{
    let ghost g = t@.subrange(from as int, to as int);
    let mut start = from;
    if from < to && t.get_char(from) == '+' {
        start = from + 1;
    }
    let ghost d = t@.subrange(start as int, to as int);
    assert(d =~= unsigned_digits(g));
    if start == to {
        return 0;
    }
    let mut value: u64 = 0;
    let mut i = start;
    while i < to
        invariant
            start <= i <= to <= t@.len(),
            d == t@.subrange(start as int, to as int),
            d == unsigned_digits(g),
            g == t@.subrange(from as int, to as int),
            value == digits_value(d.subrange(0, i - start)),
            all_digits(d.subrange(0, i - start)),
        decreases to - i,
    {
        let c = t.get_char(i);
        if !('0' <= c && c <= '9') {
            assert(!is_digit(d[i - start]));
            return 0;
        }
        let ghost prefix = d.subrange(0, i - start + 1);
        assert(prefix.drop_last() =~= d.subrange(0, i - start));
        let digit = (c as u32 - '0' as u32) as u64;
        assert(prefix.last() == c);
        assert(digits_value(prefix) == value * 10 + digit);
        if value > (u64::MAX - digit) / 10 {
            proof {
                assert(value * 10 + digit > u64::MAX) by (nonlinear_arith)
                    requires
                        value > (u64::MAX - digit) / 10,
                        digit <= 9,
                ;
                if all_digits(d) {
                    lemma_digits_grow(d, i - start + 1);
                }
            }
            return 0;
        }
        value = value * 10 + digit;
        i = i + 1;
    }
    assert(d.subrange(0, i - start) =~= d);
    value
}

impl Version {
    /// Reads text such as `1.2.3` or `1.2.3-experimental`.
    ///
    /// Everything before the first `-` is split on `.`; its first three
    /// segments give the numbers, any absent or unreadable one counting as 0.
    /// What follows the first `-` is the channel, `stable` where there is none.
    /// Reading never fails.
    pub fn parse(s: &str) -> (r: Version)
        ensures
            r.major == field(numeric_part(s@), 0),
            r.minor == field(numeric_part(s@), 1),
            r.patch == field(numeric_part(s@), 2),
            r.channel@ == channel_part(s@),
    {
        let n = s.unicode_len();
        let dash = find_char(s, '-', 0);
        proof {
            lemma_find_from_bounds(s@, '-', 0);
        }
        let nums = s.substring_char(0, dash);
        let channel = if dash < n {
            String::from_str(s.substring_char(dash + 1, n))
        } else {
            String::from_str("stable")
        };
        let ghost t = nums@;
        let len = nums.unicode_len();
        let mut major: u64 = 0;
        let mut minor: u64 = 0;
        let mut patch: u64 = 0;
        let end0 = find_char(nums, '.', 0);
        proof {
            lemma_find_from_bounds(t, '.', 0);
        }
        major = segment_number(nums, 0, end0);
        assert(segment_start(t, 0) == Some(0int));
        if end0 < len {
            assert(segment_start(t, 1) == Some(end0 + 1));
            let end1 = find_char(nums, '.', end0 + 1);
            proof {
                lemma_find_from_bounds(t, '.', end0 + 1);
            }
            minor = segment_number(nums, end0 + 1, end1);
            if end1 < len {
                assert(segment_start(t, 2) == Some(end1 + 1));
                let end2 = find_char(nums, '.', end1 + 1);
                proof {
                    lemma_find_from_bounds(t, '.', end1 + 1);
                }
                patch = segment_number(nums, end1 + 1, end2);
            } else {
                assert(segment_start(t, 2) is None);
            }
        } else {
            assert(segment_start(t, 1) is None);
            assert(segment_start(t, 2) is None);
        }
        Version { major, minor, patch, channel }
    }

    /// How desirable this version is, in `0..=SCALE`: `base / (base + 100)`
    /// with `base = major * 100 + minor * 10 + patch`, times 1 for the
    /// `stable` and `lts` channels, 0.8 for `legacy`, 0.6 for `experimental`
    /// and 0.75 for any other, rounded down to a multiple of `1 / SCALE`.
    pub fn semver_weight(&self) -> (r: u128)
        ensures
            r == semver_weight_of(*self),
            r <= SCALE,
    {
        let factor: u128 = if same_text(self.channel.as_str(), "stable") || same_text(
            self.channel.as_str(),
            "lts",
        ) {
            20
        } else if same_text(self.channel.as_str(), "legacy") {
            16
        } else if same_text(self.channel.as_str(), "experimental") {
            12
        } else {
            15
        };
        assert(factor == channel_factor(self.channel@));
        let base: u128 = self.major as u128 * 100 + self.minor as u128 * 10 + self.patch as u128;
        assert(base == version_base(*self));
        assert(base <= 0x1_0000_0000_0000_0000u128 * 111);
        // SCALE * base * factor may not fit; divide in two steps of ROOT each.
        assert(base * factor <= 0x1_0000_0000_0000_0000u128 * 111 * 20) by (nonlinear_arith)
            requires
                base <= 0x1_0000_0000_0000_0000u128 * 111,
                factor <= 20,
        ;
        let x: u128 = base * factor;
        let den: u128 = (base + 100) * 20;
        assert(x < den) by (nonlinear_arith)
            requires
                x == base * factor,
                den == (base + 100) * 20,
                factor <= 20,
        ;
        assert(x * ROOT < den * ROOT) by (nonlinear_arith)
            requires
                x < den,
        ;
        let q1 = x * ROOT / den;
        let r1 = x * ROOT % den;
        proof {
            lemma_fundamental_div_mod((x * ROOT) as int, den as int);
            assert(q1 < ROOT) by (nonlinear_arith)
                requires
                    x * ROOT == den * q1 + r1,
                    x * ROOT < den * ROOT,
                    r1 >= 0,
            ;
            assert(r1 * ROOT < den * ROOT) by (nonlinear_arith)
                requires
                    r1 < den,
            ;
        }
        let q2 = r1 * ROOT / den;
        proof {
            let whole = SCALE as int * base * factor;
            assert(whole == r1 * ROOT + (q1 * ROOT) * den) by (nonlinear_arith)
                requires
                    whole == SCALE as int * base * factor,
                    x == base * factor,
                    x * ROOT == den * q1 + r1,
                    SCALE == ROOT * ROOT,
            ;
            lemma_hoist_over_denominator((r1 * ROOT) as int, (q1 * ROOT) as int, den as nat);
            assert(whole / (den as int) == q2 + q1 * ROOT);
            assert(q2 < ROOT) by (nonlinear_arith)
                requires
                    q2 == (r1 * ROOT) as int / (den as int),
                    r1 * ROOT < den * ROOT,
                    den > 0,
            ;
            assert(whole == SCALE as int * x) by (nonlinear_arith)
                requires
                    whole == SCALE as int * base * factor,
                    x == base * factor,
            ;
            assert(whole / (den as int) <= SCALE) by (nonlinear_arith)
                requires
                    whole == SCALE as int * x,
                    x < den,
            ;
        }
        q1 * ROOT + q2
    }
}

} // verus!

verus! {

/// Whether `a`'s numeric triple is lexicographically greater than `b`'s.
pub fn newer_triple(a: &Version, b: &Version) -> (r: bool)
    ensures
        r == triple_greater(*a, *b),
{
    a.major > b.major || (a.major == b.major && (a.minor > b.minor || (a.minor == b.minor
        && a.patch > b.patch)))
}

} // verus!

verus! {

/// Three runs of decimal digits joined by dots, each denoting a `u64`, read
/// as those three numbers on the `stable` channel.
pub proof fn lemma_parse_plain_triple(a: Seq<char>, b: Seq<char>, c: Seq<char>)
    requires
        a.len() > 0 && all_digits(a) && digits_value(a) <= u64::MAX,
        b.len() > 0 && all_digits(b) && digits_value(b) <= u64::MAX,
        c.len() > 0 && all_digits(c) && digits_value(c) <= u64::MAX,
    ensures
        ({
            let s = a + seq!['.'] + b + seq!['.'] + c;
            &&& field(numeric_part(s), 0) == digits_value(a)
            &&& field(numeric_part(s), 1) == digits_value(b)
            &&& field(numeric_part(s), 2) == digits_value(c)
            &&& channel_part(s) == "stable"@
        }),
{
    let s = a + seq!['.'] + b + seq!['.'] + c;
    let p1 = a.len() as int;
    let p2 = p1 + 1 + b.len();
    assert forall|k: int| 0 <= k < s.len() implies s[k] == '.' || is_digit(#[trigger] s[k]) by {
        if k < p1 {
            assert(s[k] == a[k]);
        } else if k == p1 {
        } else if k < p2 {
            assert(s[k] == b[k - p1 - 1]);
        } else if k > p2 {
            assert(s[k] == c[k - p2 - 1]);
        }
    }
    lemma_find_from_at(s, '-', 0, s.len() as int);
    assert(numeric_part(s) =~= s);
    lemma_find_from_at(s, '.', 0, p1);
    lemma_find_from_at(s, '.', p1 + 1, p2);
    lemma_find_from_at(s, '.', p2 + 1, s.len() as int);
    assert(segment_start(s, 0) == Some(0int));
    assert(segment_start(s, 1) == Some(p1 + 1));
    assert(segment_start(s, 2) == Some(p2 + 1));
    assert(s.subrange(0, p1) =~= a);
    assert(s.subrange(p1 + 1, p2) =~= b);
    assert(s.subrange(p2 + 1, s.len() as int) =~= c);
    assert(is_digit(a[0]) && is_digit(b[0]) && is_digit(c[0]));
    assert(unsigned_digits(a) == a);
    assert(unsigned_digits(b) == b);
    assert(unsigned_digits(c) == c);
}

} // verus!
