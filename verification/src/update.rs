//! The rules of self-update: whether this build may update itself, version
//! comparison, which release asset fits the host, which URLs may be fetched, when
//! the background check is due, which leftover temp files may be swept, and how a
//! downloaded tarball is checked against its published SHA-256.
//!
//! Fetching, prompting and replacing the binary happen around these functions.
use vstd::prelude::*;
use crate::numeral;
use crate::text::{self, chars_of, push_char, push_str, str_eq, string_from};

verus! {

/// The build channel of a binary built from source.
pub open spec fn source_channel() -> Seq<char> {
    "source"@
}

/// Whether a binary of this build channel came from a distribution package.
pub fn is_packaged_build(channel: &str) -> (r: bool)
    ensures
        r == (channel@ != source_channel()),
{
    !str_eq(channel, "source")
}

/// The command that upgrades `ush` through the package manager of a channel.
pub open spec fn package_upgrade_command(channel: Seq<char>) -> Seq<char> {
    if channel == "deb"@ {
        "sudo apt update && sudo apt upgrade ush"@
    } else if channel == "rpm"@ {
        "sudo dnf upgrade ush"@
    } else if channel == "aur"@ {
        "sudo pacman -Syu ush"@
    } else if channel == "nix"@ {
        "nix profile upgrade ush"@
    } else if channel == "brew"@ {
        "brew upgrade ush"@
    } else {
        "your package manager"@
    }
}

/// The guidance for a packaged build, around its package manager's upgrade command.
pub open spec fn notice_text(channel: Seq<char>) -> Seq<char> {
    "ush was installed from a distribution package and is managed by your package manager.\nSelf-upgrade is disabled so it does not conflict with the packaged files.\n\nUpgrade with:\n    "@
        + package_upgrade_command(channel)
        + "\n\nOr remove the distro package and reinstall the standalone build:\n    curl -fsSL https://ush.sucks/install.sh | bash"@
}

fn upgrade_command(channel: &str) -> (s: String)
    ensures
        s@ == package_upgrade_command(channel@),
{
    if str_eq(channel, "deb") {
        string_from("sudo apt update && sudo apt upgrade ush")
    } else if str_eq(channel, "rpm") {
        string_from("sudo dnf upgrade ush")
    } else if str_eq(channel, "aur") {
        string_from("sudo pacman -Syu ush")
    } else if str_eq(channel, "nix") {
        string_from("nix profile upgrade ush")
    } else if str_eq(channel, "brew") {
        string_from("brew upgrade ush")
    } else {
        string_from("your package manager")
    }
}

/// The guidance printed when an upgrade is asked of a packaged build; `None` for a
/// build from source.
pub fn packaged_build_notice(channel: &str) -> (r: Option<String>)
    ensures
        channel@ == source_channel() ==> r is None,
        channel@ != source_channel() ==> (r matches Some(s) && s@ == notice_text(channel@)),
{
    if !is_packaged_build(channel) {
        return None;
    }
    let mut s = string_from(
        "ush was installed from a distribution package and is managed by your package manager.\nSelf-upgrade is disabled so it does not conflict with the packaged files.\n\nUpgrade with:\n    ",
    );
    push_str(&mut s, upgrade_command(channel).as_str());
    push_str(
        &mut s,
        "\n\nOr remove the distro package and reinstall the standalone build:\n    curl -fsSL https://ush.sucks/install.sh | bash",
    );
    Some(s)
}

/// Options for an upgrade.
pub struct UpgradeOptions {
    /// Skip the confirmation prompt.
    pub assume_yes: bool,
    /// Only check and report; do not download or replace.
    pub check_only: bool,
    /// Pin to a specific version instead of querying metadata.
    pub version_override: Option<String>,
    /// Verbose progress messages to stderr.
    pub verbose: bool,
}

// ---------------------------------------------------------------------------
// Versions.

/// How many leading characters of `s` are `v`.
pub open spec fn v_run(s: Seq<char>) -> nat
    decreases s.len(),
{
    if s.len() > 0 && s[0] == 'v' {
        1 + v_run(s.drop_first())
    } else {
        0
    }
}

/// A version string without surrounding whitespace and without its leading `v`s.
pub open spec fn bare_version(s: Seq<char>) -> Seq<char> {
    let t = text::trim(s);
    t.skip(v_run(t) as int)
}

/// The dot-separated fields of `s`, in order (std `str::split('.')`).
pub open spec fn dot_fields(s: Seq<char>) -> Seq<Seq<char>>
    decreases s.len(),
{
    match text::first_index(s, '.') {
        None => seq![s],
        Some(k) => {
            proof {
                lemma_first_index_bound(s, '.');
            }
            seq![s.take(k as int)] + dot_fields(s.skip(k + 1 as int))
        },
    }
}

/// `first_index` finds the first occurrence, and `None` means there is none.
pub proof fn lemma_first_index_bound(s: Seq<char>, c: char)
    ensures
        text::first_index(s, c) matches Some(k) ==> k < s.len() && s[k as int] == c && forall|j: int|
            0 <= j < k ==> s[j] != c,
        text::first_index(s, c) is None ==> forall|j: int| 0 <= j < s.len() ==> s[j] != c,
    decreases s.len(),
{
    if s.len() > 0 {
        lemma_first_index_bound(s.drop_first(), c);
        assert forall|j: int| 0 < j < s.len() implies s[j] == s.drop_first()[j - 1] by {}
    }
}

/// The (major, minor, patch) of a version such as `v2.1.0`, read as `ush` reads
/// release versions: surrounding whitespace and leading `v`s dropped, major and
/// minor must be numerals, patch defaults to 0 and keeps only its leading digits,
/// which must not be empty.
pub open spec fn semver(s: Seq<char>) -> Option<(u32, u32, u32)> {
    let f = dot_fields(bare_version(s));
    if f.len() < 2 {
        None
    } else {
        let patch_raw = if f.len() >= 3 {
            f[2]
        } else {
            "0"@
        };
        match (numeral::u32_numeral(f[0]), numeral::u32_numeral(f[1]), numeral::u32_numeral(patch_raw.take(text::digit_run(patch_raw) as int))) {
            (Some(a), Some(b), Some(c)) => Some((a, b, c)),
            _ => None,
        }
    }
}

/// Whether version `l` is after version `c`, comparing major, then minor, then patch.
pub open spec fn version_after(l: (u32, u32, u32), c: (u32, u32, u32)) -> bool {
    l.0 > c.0 || (l.0 == c.0 && (l.1 > c.1 || (l.1 == c.1 && l.2 > c.2)))
}

/// Whether `latest` names a later version than `current`; false when either does not parse.
pub open spec fn newer(latest: Seq<char>, current: Seq<char>) -> bool {
    match (semver(latest), semver(current)) {
        (Some(l), Some(c)) => version_after(l, c),
        _ => false,
    }
}

fn bare_version_bounds(cs: &[char]) -> (r: (usize, usize))
    ensures
        r.0 <= r.1 <= cs.len(),
        cs@.subrange(r.0 as int, r.1 as int) == bare_version(cs@),
{
    let mut start: usize = 0;
    let mut end: usize = cs.len();
    assert(cs@.skip(0) == cs@);
    while start < end && text::char_is_whitespace(cs[start])
        invariant
            start <= end == cs.len(),
            text::trim_start(cs@.skip(start as int)) == text::trim_start(cs@),
        decreases end - start,
    {
        assert(cs@.skip(start as int).drop_first() == cs@.skip(start + 1));
        start = start + 1;
    }
    assert(cs@.subrange(start as int, end as int) == text::trim_start(cs@));
    let ghost ts = cs@.subrange(start as int, end as int);
    while end > start && text::char_is_whitespace(cs[end - 1])
        invariant
            start <= end <= cs.len(),
            text::trim_end(cs@.subrange(start as int, end as int)) == text::trim_end(ts),
        decreases end - start,
    {
        assert(cs@.subrange(start as int, end as int).drop_last() == cs@.subrange(start as int, end - 1));
        end = end - 1;
    }
    assert(cs@.subrange(start as int, end as int) == text::trim(cs@));
    let ghost t = cs@.subrange(start as int, end as int);
    let t0 = start;
    while start < end && cs[start] == 'v'
        invariant
            t0 <= start <= end <= cs.len(),
            t == cs@.subrange(t0 as int, end as int),
            v_run(t) == (start - t0) + v_run(cs@.subrange(start as int, end as int)),
        decreases end - start,
    {
        assert(cs@.subrange(start as int, end as int).drop_first() == cs@.subrange(start + 1, end as int));
        start = start + 1;
    }
    assert(t.skip(v_run(t) as int) == cs@.subrange(start as int, end as int));
    (start, end)
}

proof fn lemma_first_index_at(s: Seq<char>, c: char, k: nat)
    requires
        k <= s.len(),
        forall|j: int| 0 <= j < k ==> s[j] != c,
        k < s.len() ==> s[k as int] == c,
    ensures
        k < s.len() ==> text::first_index(s, c) == Some(k),
        k == s.len() ==> text::first_index(s, c) is None,
    decreases s.len(),
{
    if s.len() > 0 && k > 0 {
        assert forall|j: int| 0 <= j < k - 1 implies s.drop_first()[j] != c by {
            assert(s.drop_first()[j] == s[j + 1]);
        }
        if k < s.len() {
            assert(s.drop_first()[k - 1] == s[k as int]);
        }
        lemma_first_index_at(s.drop_first(), c, (k - 1) as nat);
    }
}

/// The first field of `cs[a..b]` ends at `k`: at a dot, or at `b` when there is none.
proof fn lemma_fields_split(cs: Seq<char>, a: nat, b: nat, k: nat)
    requires
        a <= k <= b <= cs.len(),
        forall|j: int| a <= j < k ==> cs[j] != '.',
        k < b ==> cs[k as int] == '.',
    ensures
        k == b ==> dot_fields(cs.subrange(a as int, b as int)) == seq![cs.subrange(a as int, b as int)],
        k < b ==> dot_fields(cs.subrange(a as int, b as int)) == seq![cs.subrange(a as int, k as int)]
            + dot_fields(cs.subrange(k + 1int, b as int)),
{
    let s = cs.subrange(a as int, b as int);
    assert forall|j: int| 0 <= j < k - a implies s[j] != '.' by {
        assert(s[j] == cs[a + j]);
    }
    lemma_first_index_at(s, '.', (k - a) as nat);
    if k < b {
        assert(s.take(k - a) == cs.subrange(a as int, k as int));
        assert(s.skip(k - a + 1) == cs.subrange(k + 1int, b as int));
    }
}

/// The end of the field of `cs` that starts at `from`: the first dot before `to`, or `to`.
fn field_end(cs: &[char], from: usize, to: usize) -> (k: usize)
    requires
        from <= to <= cs.len(),
    ensures
        from <= k <= to,
        forall|j: int| from <= j < k ==> cs@[j] != '.',
        k < to ==> cs@[k as int] == '.',
{
    let mut k = from;
    while k < to && cs[k] != '.'
        invariant
            from <= k <= to <= cs.len(),
            forall|j: int| from <= j < k ==> cs@[j] != '.',
        decreases to - k,
    {
        k = k + 1;
    }
    k
}

/// Reads a version such as `v2.1.0` as (major, minor, patch).
pub fn parse_semver(s: &str) -> (r: Option<(u32, u32, u32)>)
    ensures
        r == semver(s@),
{
    let cs = chars_of(s);
    let (start, end) = bare_version_bounds(cs.as_slice());
    let ghost b = cs@.subrange(start as int, end as int);
    let d1 = field_end(cs.as_slice(), start, end);
    proof {
        lemma_fields_split(cs@, start as nat, end as nat, d1 as nat);
    }
    if d1 == end {
        return None;
    }
    let major = numeral::parse_numeral(cs.as_slice(), start, d1);
    let rest = d1 + 1;
    let d2 = field_end(cs.as_slice(), rest, end);
    proof {
        lemma_fields_split(cs@, rest as nat, end as nat, d2 as nat);
    }
    let minor = numeral::parse_numeral(cs.as_slice(), rest, d2);
    let ghost f = dot_fields(b);
    let patch = if d2 < end {
        let p0 = d2 + 1;
        let p3 = field_end(cs.as_slice(), p0, end);
        proof {
            lemma_fields_split(cs@, p0 as nat, end as nat, p3 as nat);
            assert(f[2] == cs@.subrange(p0 as int, p3 as int));
        }
        let mut p = p0;
        while p < p3 && cs[p] >= '0' && cs[p] <= '9'
            invariant
                p0 <= p <= p3 <= cs.len(),
                text::digit_run(cs@.subrange(p0 as int, p3 as int)) == (p - p0) + text::digit_run(
                    cs@.subrange(p as int, p3 as int),
                ),
            decreases p3 - p,
        {
            assert(cs@.subrange(p as int, p3 as int).drop_first() == cs@.subrange(p + 1, p3 as int));
            p = p + 1;
        }
        proof {
            assert(cs@.subrange(p0 as int, p3 as int).take((p - p0) as int) == cs@.subrange(
                p0 as int,
                p as int,
            ));
        }
        numeral::parse_numeral(cs.as_slice(), p0, p)
    } else {
        proof {
            reveal_strlit("0");
            let z = "0"@;
            assert(z.drop_first().len() == 0);
            assert(text::digit_run(z.drop_first()) == 0);
            assert(text::digit_run(z) == 1);
            assert(z.take(1) == z);
            assert(z.drop_last().len() == 0);
            assert(numeral::digits_value(z.drop_last()) == Some(0nat));
            assert(numeral::digits_value(z) == Some(0nat));
        }
        Some(0u64)
    };
    proof {
        numeral::lemma_u32_of_u64(cs@.subrange(start as int, d1 as int));
        numeral::lemma_u32_of_u64(cs@.subrange(rest as int, d2 as int));
    }
    match (major, minor, patch) {
        (Some(a), Some(b), Some(c)) => {
            if a <= u32::MAX as u64 && b <= u32::MAX as u64 && c <= u32::MAX as u64 {
                Some((a as u32, b as u32, c as u32))
            } else {
                None
            }
        },
        _ => None,
    }
}

/// Whether `latest` names a later release than `current`.
pub fn semver_newer(latest: &str, current: &str) -> (r: bool)
    ensures
        r == newer(latest@, current@),
{
    match (parse_semver(latest), parse_semver(current)) {
        (Some(l), Some(c)) => l.0 > c.0 || (l.0 == c.0 && (l.1 > c.1 || (l.1 == c.1 && l.2 > c.2))),
        _ => false,
    }
}

/// No version is newer than itself.
pub proof fn lemma_newer_irreflexive(v: Seq<char>)
    ensures
        !newer(v, v),
{
}

/// Of two versions, at most one is newer than the other.
pub proof fn lemma_newer_asymmetric(a: Seq<char>, b: Seq<char>)
    ensures
        newer(a, b) ==> !newer(b, a),
{
}

/// A version newer than one that is newer than a third is newer than the third.
pub proof fn lemma_newer_transitive(a: Seq<char>, b: Seq<char>, c: Seq<char>)
    requires
        newer(a, b),
        newer(b, c),
    ensures
        newer(a, c),
{
}

/// Versions are ordered as (major, minor, patch) tuples: of two versions that read
/// as different triples, exactly one is newer than the other, and the newer one is
/// the one with the larger major number, or with equal majors the larger minor, or
/// with equal majors and minors the larger patch.
pub proof fn lemma_newer_tuple_order(a: Seq<char>, b: Seq<char>)
    requires
        semver(a) is Some,
        semver(b) is Some,
    ensures
        ({
            let (la, ia, pa) = semver(a).unwrap();
            let (lb, ib, pb) = semver(b).unwrap();
            &&& la > lb ==> newer(a, b)
            &&& la == lb && ia > ib ==> newer(a, b)
            &&& la == lb && ia == ib && pa > pb ==> newer(a, b)
            &&& newer(a, b) ==> la > lb || (la == lb && ia > ib) || (la == lb && ia == ib && pa > pb)
            &&& semver(a) != semver(b) ==> (newer(a, b) != newer(b, a))
            &&& semver(a) == semver(b) ==> !newer(a, b)
        }),
{
}

/// A version that does not read as one is never newer, nor is any version newer than it.
pub proof fn lemma_newer_needs_versions(a: Seq<char>, b: Seq<char>)
    requires
        semver(a) is None || semver(b) is None,
    ensures
        !newer(a, b),
{
}

/// The version the user pinned, without surrounding whitespace and leading `v`s; `None`
/// when nothing is left, which the caller reports as an empty version.
pub fn pinned_version(s: &str) -> (r: Option<String>)
    ensures
        bare_version(s@).len() == 0 ==> r is None,
        bare_version(s@).len() > 0 ==> (r matches Some(v) && v@ == bare_version(s@)),
{
    let cs = chars_of(s);
    let (start, end) = bare_version_bounds(cs.as_slice());
    if start == end {
        None
    } else {
        Some(text::string_of_range(cs.as_slice(), start, end))
    }
}

/// A version as published in release metadata, without its leading `v`s.
pub fn strip_leading_v(s: &str) -> (r: String)
    ensures
        r@ == s@.skip(v_run(s@) as int),
{
    let cs = chars_of(s);
    let mut i: usize = 0;
    assert(cs@.skip(0) == cs@);
    while i < cs.len() && cs[i] == 'v'
        invariant
            i <= cs.len(),
            v_run(cs@) == i + v_run(cs@.skip(i as int)),
        decreases cs.len() - i,
    {
        assert(cs@.skip(i as int).drop_first() == cs@.skip(i + 1));
        i = i + 1;
    }
    assert(v_run(cs@.skip(i as int)) == 0);
    assert(cs@.skip(i as int) == cs@.subrange(i as int, cs.len() as int));
    text::string_of_range(cs.as_slice(), i, cs.len())
}

/// The release target triple for a host operating system and architecture.
pub open spec fn release_target(os: Seq<char>, arch: Seq<char>) -> Option<Seq<char>> {
    if os == "linux"@ && arch == "x86_64"@ {
        Some("x86_64-unknown-linux-musl"@)
    } else if os == "linux"@ && arch == "aarch64"@ {
        Some("aarch64-unknown-linux-musl"@)
    } else if os == "macos"@ && arch == "aarch64"@ {
        Some("aarch64-apple-darwin"@)
    } else {
        None
    }
}

/// A host for which no release is built.
#[derive(Debug)]
pub struct UnsupportedPlatform {
    pub os: String,
    pub arch: String,
}

impl UnsupportedPlatform {
    /// The error text: `unsupported platform: <os>/<arch>`.
    pub fn message(&self) -> (s: String)
        ensures
            s@ == "unsupported platform: "@ + self.os@ + "/"@ + self.arch@,
    {
        let mut s = string_from("unsupported platform: ");
        push_str(&mut s, self.os.as_str());
        push_str(&mut s, "/");
        push_str(&mut s, self.arch.as_str());
        s
    }
}

/// Maps a host (std's `env::consts::OS` and `ARCH`) to the target triple of its
/// release artifacts.
pub fn detect_target(os: &str, arch: &str) -> (r: Result<&'static str, UnsupportedPlatform>)
    ensures
        match release_target(os@, arch@) {
            Some(t) => r matches Ok(x) && x@ == t,
            None => r matches Err(e) && e.os@ == os@ && e.arch@ == arch@,
        },
{
    if str_eq(os, "linux") && str_eq(arch, "x86_64") {
        Ok("x86_64-unknown-linux-musl")
    } else if str_eq(os, "linux") && str_eq(arch, "aarch64") {
        Ok("aarch64-unknown-linux-musl")
    } else if str_eq(os, "macos") && str_eq(arch, "aarch64") {
        Ok("aarch64-apple-darwin")
    } else {
        Err(UnsupportedPlatform { os: string_from(os), arch: string_from(arch) })
    }
}

/// The file name prefix of an in-flight download; the downloading process's id follows it.
pub open spec fn upgrade_temp_prefix() -> Seq<char> {
    ".ush.upgrade."@
}

/// Seconds after which an abandoned download may be swept.
pub const STALE_TEMP_AGE_SECS: u64 = 600;

/// The process id in the name of another process's in-flight download: the name is
/// the prefix followed by a `u32` written in ASCII digits alone, other than `my_pid`.
pub open spec fn foreign_temp_pid(name: Seq<char>, my_pid: u32) -> Option<u32> {
    let p = upgrade_temp_prefix();
    if p.is_prefix_of(name) {
        let rest = name.skip(p.len() as int);
        if rest.len() > 0 && (forall|i: int| 0 <= i < rest.len() ==> text::is_ascii_digit(#[trigger] rest[i])) {
            match numeral::u32_numeral(rest) {
                Some(pid) => if pid != my_pid {
                    Some(pid)
                } else {
                    None
                },
                None => None,
            }
        } else {
            None
        }
    } else {
        None
    }
}

/// The process id in the name of a download temp left by another process, if the name
/// is one; the caller then checks that the process is gone and the file old enough.
pub fn upgrade_temp_pid(name: &str, my_pid: u32) -> (r: Option<u32>)
    ensures
        r == foreign_temp_pid(name@, my_pid),
{
    let prefix = ".ush.upgrade.";
    if !text::starts_with(name, prefix) {
        return None;
    }
    let cs = chars_of(name);
    let from = chars_of(prefix).len();
    let ghost rest = name@.skip(from as int);
    assert(rest == cs@.subrange(from as int, cs.len() as int));
    if from == cs.len() {
        return None;
    }
    let mut i = from;
    while i < cs.len()
        invariant
            from <= i <= cs.len(),
            cs@ == name@,
            from == upgrade_temp_prefix().len(),
            upgrade_temp_prefix().is_prefix_of(name@),
            rest == name@.skip(from as int),
            rest == cs@.subrange(from as int, cs.len() as int),
            forall|k: int| 0 <= k < i - from ==> text::is_ascii_digit(#[trigger] rest[k]),
        decreases cs.len() - i,
    {
        if cs[i] < '0' || cs[i] > '9' {
            assert(!text::is_ascii_digit(rest[i - from]));
            return None;
        }
        i = i + 1;
    }
    proof {
        numeral::lemma_u32_of_u64(rest);
    }
    match numeral::parse_numeral(cs.as_slice(), from, cs.len()) {
        Some(v) => {
            if v <= u32::MAX as u64 && v as u32 != my_pid {
                Some(v as u32)
            } else {
                None
            }
        },
        None => None,
    }
}

/// Whether `USH_UPDATE_INSECURE` (its value, if set) lifts the scheme check: it is `1`.
pub open spec fn insecure_enabled(var: Option<&str>) -> bool {
    match var {
        Some(v) => v@ == "1"@,
        None => false,
    }
}

/// Whether a URL may be fetched for release metadata: `https://` or `file://`, or any
/// scheme when `USH_UPDATE_INSECURE` is `1`.
pub fn metadata_url_allowed(url: &str, insecure: Option<&str>) -> (r: bool)
    ensures
        r == ("https://"@.is_prefix_of(url@) || "file://"@.is_prefix_of(url@) || insecure_enabled(insecure)),
{
    text::starts_with(url, "https://") || text::starts_with(url, "file://") || match insecure {
        Some(v) => str_eq(v, "1"),
        None => false,
    }
}

/// Whether a release tarball may be downloaded from a URL: `https://`, or any scheme
/// when `USH_UPDATE_INSECURE` is `1`.
pub fn download_url_allowed(url: &str, insecure: Option<&str>) -> (r: bool)
    ensures
        r == ("https://"@.is_prefix_of(url@) || insecure_enabled(insecure)),
{
    text::starts_with(url, "https://") || match insecure {
        Some(v) => str_eq(v, "1"),
        None => false,
    }
}

/// The default interval between background checks: a day, in seconds.
pub const CHECK_INTERVAL_SECS: u64 = 86400;

/// The check interval from `USH_UPDATE_INTERVAL_SECS`: its value when it reads as a
/// `u64`, else the default.
pub fn check_interval(var: Option<&str>) -> (r: u64)
    ensures
        r == match var {
            Some(v) => match numeral::u64_numeral(v@) {
                Some(n) => n,
                None => CHECK_INTERVAL_SECS,
            },
            None => CHECK_INTERVAL_SECS,
        },
{
    match var {
        Some(v) => {
            let cs = chars_of(v);
            assert(cs@.subrange(0, cs.len() as int) == v@);
            match numeral::parse_numeral(cs.as_slice(), 0, cs.len()) {
                Some(n) => n,
                None => CHECK_INTERVAL_SECS,
            }
        },
        None => CHECK_INTERVAL_SECS,
    }
}

/// Whether a background check is due: no earlier check is recorded, or at least
/// `interval` seconds passed since it (a clock behind the record counts as no time).
pub fn check_due(now: u64, checked_at: Option<u64>, interval: u64) -> (r: bool)
    ensures
        r == match checked_at {
            Some(t) => (if now >= t {
                now - t
            } else {
                0
            }) >= interval,
            None => true,
        },
{
    match checked_at {
        Some(t) => now.saturating_sub(t) >= interval,
        None => true,
    }
}

/// A release artifact listed in the metadata.
pub struct Asset {
    pub target: String,
    pub url: String,
    pub sha256: String,
}

/// The release metadata published for the latest version.
pub struct ReleaseMetadata {
    pub version: String,
    pub assets: Vec<Asset>,
}

/// The index of the first asset built for `triple`.
pub fn find_asset(assets: &[Asset], triple: &str) -> (r: Option<usize>)
    ensures
        match r {
            Some(i) => i < assets.len() && assets@[i as int].target@ == triple@ && forall|j: int|
                0 <= j < i ==> (#[trigger] assets@[j]).target@ != triple@,
            None => forall|j: int| 0 <= j < assets.len() ==> (#[trigger] assets@[j]).target@ != triple@,
        },
{
    let mut i: usize = 0;
    while i < assets.len()
        invariant
            i <= assets.len(),
            forall|j: int| 0 <= j < i ==> (#[trigger] assets@[j]).target@ != triple@,
        decreases assets.len() - i,
    {
        if str_eq(assets[i].target.as_str(), triple) {
            return Some(i);
        }
        i = i + 1;
    }
    None
}

/// The SHA-256 digest of a byte string.
pub uninterp spec fn sha256(data: Seq<u8>) -> Seq<u8>;

/// Hashes `data` with sha2's `Sha256::digest`: the digest is a function of the bytes
/// alone, and sha2 fixes its output at 32 bytes.
#[verifier::external_body]
fn sha256_digest(data: &[u8]) -> (r: Vec<u8>)
    ensures
        r@ == sha256(data@),
        r@.len() == 32,
{
    <sha2::Sha256 as sha2::Digest>::digest(data).to_vec()
}

/// Bytes as lowercase hexadecimal, two digits each.
pub open spec fn hex_bytes(bs: Seq<u8>) -> Seq<char> {
    Seq::new(
        2 * bs.len(),
        |i: int|
            if i % 2 == 0 {
                text::hex_digit_char((bs[i / 2] / 16) as nat)
            } else {
                text::hex_digit_char((bs[i / 2] % 16) as nat)
            },
    )
}

fn hex_digit(d: u8) -> (c: char)
    requires
        d < 16,
    ensures
        c == text::hex_digit_char(d as nat),
{
    if d < 10 {
        (48u8 + d) as char
    } else {
        (87u8 + d) as char
    }
}

/// The SHA-256 digest of `data` in lowercase hexadecimal.
pub fn sha256_hex(data: &[u8]) -> (s: String)
    ensures
        s@ == hex_bytes(sha256(data@)),
{
    let d = sha256_digest(data);
    let mut s = String::new();
    let mut i: usize = 0;
    while i < d.len()
        invariant
            i <= d.len(),
            s@ == hex_bytes(d@.take(i as int)),
        decreases d.len() - i,
    {
        let b = d[i];
        push_char(&mut s, hex_digit(b / 16));
        push_char(&mut s, hex_digit(b % 16));
        i = i + 1;
        assert(s@ =~= hex_bytes(d@.take(i as int))) by {
            assert forall|k: int| 0 <= k < 2 * i implies s@[k] == hex_bytes(d@.take(i as int))[k] by {
                assert(d@.take(i as int)[k / 2] == d@[k / 2]);
                if k < 2 * (i - 1) {
                    assert(d@.take(i - 1)[k / 2] == d@[k / 2]);
                }
            }
        }
    }
    assert(d@.take(d.len() as int) == d@);
    s
}

/// Whether a computed digest matches the published one, which may use capitals.
pub fn checksum_matches(actual: &str, expected: &str) -> (r: bool)
    ensures
        r == (actual@ == text::ascii_lowercase(expected@)),
{
    let a = chars_of(actual);
    let e = chars_of(expected);
    if a.len() != e.len() {
        return false;
    }
    let mut i: usize = 0;
    while i < a.len()
        invariant
            a@ == actual@,
            e@ == expected@,
            a.len() == e.len(),
            i <= a.len(),
            forall|k: int| 0 <= k < i ==> a@[k] == (#[trigger] text::ascii_lowercase(e@)[k]),
        decreases a.len() - i,
    {
        let c = e[i];
        let lc = if c >= 'A' && c <= 'Z' {
            ((c as u32) + 32) as u8 as char
        } else {
            c
        };
        assert(lc == text::ascii_lowercase(e@)[i as int]);
        if a[i] != lc {
            return false;
        }
        i = i + 1;
    }
    assert(a@ =~= text::ascii_lowercase(e@));
    true
}

/// The largest release tarball that is downloaded (64 MiB).
pub const MAX_TARBALL_SIZE: u64 = 67108864;

/// The largest metadata document that is read (1 MiB).
pub const MAX_METADATA_SIZE: u64 = 1048576;

/// The one-line hint that a newer release exists.
pub open spec fn banner_text(latest: Seq<char>, current: Seq<char>) -> Seq<char> {
    "\nush: update available: "@ + latest + " (you have "@ + current + "). Run 'ush upgrade' to update."@
}

/// The banner to print when the recorded latest release is newer than this one.
pub fn update_banner(latest: &str, current: &str) -> (r: Option<String>)
    ensures
        newer(latest@, current@) ==> (r matches Some(s) && s@ == banner_text(latest@, current@)),
        !newer(latest@, current@) ==> r is None,
{
    if !semver_newer(latest, current) {
        return None;
    }
    let mut s = string_from("\nush: update available: ");
    push_str(&mut s, latest);
    push_str(&mut s, " (you have ");
    push_str(&mut s, current);
    push_str(&mut s, "). Run 'ush upgrade' to update.");
    Some(s)
}

/// What `ush upgrade` does once it knows the version to install.
pub enum UpgradePlan {
    /// Nothing to do; the text says so.
    AlreadyCurrent(String),
    /// A check only: print the text and stop.
    Report(String),
    /// Download and install the target version.
    Install,
}

/// The text printed when the target is the running version.
pub open spec fn already_current_text(current: Seq<char>) -> Seq<char> {
    "ush is already at version "@ + current
}

/// The text printed by `ush upgrade --check`.
pub open spec fn check_report_text(target: Seq<char>, current: Seq<char>) -> Seq<char> {
    if newer(target, current) {
        "update available: "@ + target + " (current: "@ + current + ")"@
    } else {
        "target version "@ + target + " is not newer than current "@ + current
    }
}

/// Decides what `ush upgrade` does for a target version.
pub fn plan_upgrade(target: &str, current: &str, check_only: bool) -> (r: UpgradePlan)
    ensures
        target@ == current@ ==> (r matches UpgradePlan::AlreadyCurrent(s) && s@ == already_current_text(current@)),
        target@ != current@ && check_only ==> (r matches UpgradePlan::Report(s) && s@ == check_report_text(target@, current@)),
        target@ != current@ && !check_only ==> r is Install,
{
    if str_eq(target, current) {
        let mut s = string_from("ush is already at version ");
        push_str(&mut s, current);
        return UpgradePlan::AlreadyCurrent(s);
    }
    if check_only {
        let mut s;
        if semver_newer(target, current) {
            s = string_from("update available: ");
            push_str(&mut s, target);
            push_str(&mut s, " (current: ");
            push_str(&mut s, current);
            push_str(&mut s, ")");
        } else {
            s = string_from("target version ");
            push_str(&mut s, target);
            push_str(&mut s, " is not newer than current ");
            push_str(&mut s, current);
        }
        return UpgradePlan::Report(s);
    }
    UpgradePlan::Install
}

/// Whether an answer to the upgrade prompt confirms it: empty, `y` or `yes` once
/// surrounding whitespace is dropped and capitals are lowered. std lowers all of
/// Unicode; for these answers that is the same as lowering ASCII capitals, since
/// only `Y`, `E` and `S` lower to `y`, `e` and `s`.
pub open spec fn confirms(answer: Seq<char>) -> bool {
    let t = text::ascii_lowercase(text::trim(answer));
    t.len() == 0 || t == "y"@ || t == "yes"@
}

/// Whether the answer typed at the upgrade prompt confirms the upgrade.
pub fn confirms_upgrade(answer: &str) -> (r: bool)
    ensures
        r == confirms(answer@),
{
    let cs = chars_of(answer);
    let (start, end) = text::trim_bounds(cs.as_slice());
    start == end || text::lower_eq(cs.as_slice(), start, end, "y") || text::lower_eq(
        cs.as_slice(),
        start,
        end,
        "yes",
    )
}

} // verus!
