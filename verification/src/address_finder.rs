//! The Ruby version of a process, and the names of the symbols that locate the
//! interpreter's state for that version.
use vstd::prelude::*;
use vstd::utf8::{decode_utf8, valid_utf8};

use crate::text::{chars_of, dec, utf8_str};

verus! {

/// A Ruby version, as semantic versioning reads it.
#[derive(Debug, Clone, PartialEq, Eq)]
pub struct RubyVersion {
    pub major: u64,
    pub minor: u64,
    pub patch: u64,
    /// The pre-release identifiers, empty for a release.
    pub pre: String,
    /// The build metadata, empty when there is none.
    pub build: String,
}

/// The model of a version.
pub struct VersionView {
    pub major: u64,
    pub minor: u64,
    pub patch: u64,
    pub pre: Seq<char>,
    pub build: Seq<char>,
}

impl View for RubyVersion {
    type V = VersionView;

    open spec fn view(&self) -> VersionView {
        VersionView { major: self.major, minor: self.minor, patch: self.patch, pre: self.pre@, build: self.build@ }
    }
}

/// Whether `v` is at least the release `major.minor.patch` in semantic versioning's
/// order: a later release number, or the same one that is no pre-release.
pub open spec fn at_least(v: VersionView, major: u64, minor: u64, patch: u64) -> bool {
    ||| v.major > major
    ||| (v.major == major && v.minor > minor)
    ||| (v.major == major && v.minor == minor && v.patch > patch)
    ||| (v.major == major && v.minor == minor && v.patch == patch && v.pre.len() == 0)
}

/// An error of the `semver` crate.
#[verifier::external_type_specification]
#[verifier::external_body]
pub struct ExSemverError(semver::Error);

/// Why a version could not be read.
#[derive(Debug)]
pub enum VersionError {
    /// The version bytes hold no terminating zero.
    NotAString,
    /// The version bytes are not UTF-8 text.
    InvalidUtf8,
    /// The text is not a semantic version.
    Parse(semver::Error),
}

/// The name for what `semver::Version::parse` reads from a text: the version, or none
/// when the text is not a semantic version.
pub uninterp spec fn semver_parse(text: Seq<char>) -> Option<VersionView>;

/// Parses a semantic version with `semver::Version::parse`, and hands its parts over.
#[verifier::external_body]
fn parse_semver(text: &str) -> (r: Result<RubyVersion, semver::Error>)
    ensures
        match r {
            Ok(v) => semver_parse(text@) == Some(v@),
            Err(_) => semver_parse(text@) is None,
        },
{
    match semver::Version::parse(text) {
        Ok(v) => Ok(RubyVersion {
            major: v.major,
            minor: v.minor,
            patch: v.patch,
            pre: v.pre.as_str().to_string(),
            build: v.build.as_str().to_string(),
        }),
        Err(e) => Err(e),
    }
}

/// `r` is what parsing `text` gives: the version it names, or a parse error when it
/// names none.
pub open spec fn parse_agrees(r: Result<RubyVersion, VersionError>, text: Seq<char>) -> bool {
    match r {
        Ok(v) => semver_parse(text) == Some(v@),
        Err(e) => semver_parse(text) is None && e is Parse,
    }
}

impl RubyVersion {
    /// The release `major.minor.patch`.
    pub fn new(major: u64, minor: u64, patch: u64) -> (v: RubyVersion)
        ensures
            v@ == (VersionView { major, minor, patch, pre: Seq::empty(), build: Seq::empty() }),
    {
        RubyVersion { major, minor, patch, pre: String::new(), build: String::new() }
    }

    /// Reads a semantic version, such as `2.7.1` or `3.3.0-preview1`.
    pub fn parse(text: &str) -> (r: Result<RubyVersion, VersionError>)
        ensures
            parse_agrees(r, text@),
    {
        match parse_semver(text) {
            Ok(v) => Ok(v),
            Err(e) => Err(VersionError::Parse(e)),
        }
    }

    /// Whether this version is at least the release `major.minor.patch`.
    pub fn at_least(&self, major: u64, minor: u64, patch: u64) -> (r: bool)
        ensures
            r == at_least(self@, major, minor, patch),
    {
        if self.major != major {
            self.major > major
        } else if self.minor != minor {
            self.minor > minor
        } else if self.patch != patch {
            self.patch > patch
        } else {
            self.pre.as_str().is_empty()
        }
    }
}

/// The bytes of a C string: those before the first zero byte, if there is one.
pub open spec fn c_string(raw: Seq<u8>) -> Option<Seq<u8>> {
    if exists|i: int| 0 <= i < raw.len() && raw[i] == 0u8 {
        let i = choose|i: int| 0 <= i < raw.len() && raw[i] == 0u8 && forall|j: int| 0 <= j < i ==> raw[j] != 0u8;
        Some(raw.take(i))
    } else {
        None
    }
}

/// Reads the version from the bytes of the interpreter's version string: the text
/// before the first zero byte, which must be UTF-8 and a semantic version.
pub fn version_from_raw(raw: &[u8]) -> (r: Result<RubyVersion, VersionError>)
    ensures
        c_string(raw@) is None ==> r matches Err(VersionError::NotAString),
        c_string(raw@) is Some && !valid_utf8(c_string(raw@).unwrap()) ==> r matches Err(
            VersionError::InvalidUtf8,
        ),
        c_string(raw@) is Some && valid_utf8(c_string(raw@).unwrap()) ==> parse_agrees(
            r,
            decode_utf8(c_string(raw@).unwrap()),
        ),
{
    let mut pos: usize = 0;
    while pos < raw.len() && raw[pos] != 0u8
        invariant
            pos <= raw@.len(),
            forall|j: int| 0 <= j < pos ==> raw@[j] != 0u8,
        decreases raw@.len() - pos,
    {
        pos = pos + 1;
    }
    if pos == raw.len() {
        return Err(VersionError::NotAString);
    }
    proof {
        let i = choose|i: int| 0 <= i < raw@.len() && raw@[i] == 0u8 && forall|j: int| 0 <= j < i ==> raw@[j] != 0u8;
        assert(raw@[pos as int] == 0u8);
        if i < pos {
            assert(raw@[i] != 0u8);
        }
        if pos < i {
            assert(raw@[pos as int] != 0u8);
        }
        assert(i == pos);
    }
    let (text, _) = raw.split_at(pos);
    match utf8_str(text) {
        None => Err(VersionError::InvalidUtf8),
        Some(s) => RubyVersion::parse(s),
    }
}

/// The symbol that holds the Ruby version string.
pub fn ruby_version_symbol() -> (s: String)
    ensures
        s@ == "ruby_version"@,
{
    "ruby_version".to_owned()
}

/// The symbol of the global symbol table: renamed in Ruby 2.7.
pub fn ruby_globals_symbol(version: &RubyVersion) -> (s: String)
    ensures
        s@ == if at_least(version@, 2, 7, 0) {
            "ruby_global_symbols"@
        } else {
            "global_symbols"@
        },
{
    if version.at_least(2, 7, 0) {
        "ruby_global_symbols".to_owned()
    } else {
        "global_symbols".to_owned()
    }
}

/// The symbol of the current VM: a pointer from Ruby 2.5 on.
pub fn ruby_current_vm_symbol(version: &RubyVersion) -> (s: String)
    ensures
        s@ == if at_least(version@, 2, 5, 0) {
            "ruby_current_vm_ptr"@
        } else {
            "ruby_current_vm"@
        },
{
    if version.at_least(2, 5, 0) {
        "ruby_current_vm_ptr".to_owned()
    } else {
        "ruby_current_vm".to_owned()
    }
}

/// The symbol of the current thread's execution context, before Ruby 3, where the
/// current thread is no longer reachable through a symbol.
pub fn ruby_execution_context_symbol(version: &RubyVersion) -> (s: String)
    requires
        !at_least(version@, 3, 0, 0),
    ensures
        s@ == if at_least(version@, 2, 5, 0) {
            "ruby_current_execution_context_ptr"@
        } else {
            "ruby_current_thread"@
        },
{
    if version.at_least(2, 5, 0) {
        "ruby_current_execution_context_ptr".to_owned()
    } else {
        "ruby_current_thread".to_owned()
    }
}

// ----------------------------------------------------------------------------------------
// Supported versions
// ----------------------------------------------------------------------------------------

/// The module of interpreter structure bindings that reads a Ruby of version `v`
/// (written as Ruby reports it, such as `2.4.3`); none for a version without bindings.
pub open spec fn ruby_bindings_model(v: Seq<char>) -> Option<Seq<char>> {
    if v == "1.9.1"@ {
        Some("ruby_1_9_1_0"@)
    } else if v == "1.9.2"@ {
        Some("ruby_1_9_2_0"@)
    } else if v == "1.9.3"@ {
        Some("ruby_1_9_3_0"@)
    } else if v == "2.0.0"@ {
        Some("ruby_2_0_0_0"@)
    } else if v == "2.1.0"@ {
        Some("ruby_2_1_0"@)
    } else if v == "2.1.1"@ {
        Some("ruby_2_1_1"@)
    } else if v == "2.1.2"@ {
        Some("ruby_2_1_2"@)
    } else if v == "2.1.3"@ {
        Some("ruby_2_1_3"@)
    } else if v == "2.1.4"@ {
        Some("ruby_2_1_4"@)
    } else if v == "2.1.5"@ {
        Some("ruby_2_1_5"@)
    } else if v == "2.1.6"@ {
        Some("ruby_2_1_6"@)
    } else if v == "2.1.7"@ {
        Some("ruby_2_1_7"@)
    } else if v == "2.1.8"@ {
        Some("ruby_2_1_8"@)
    } else if v == "2.1.9"@ {
        Some("ruby_2_1_9"@)
    } else if v == "2.1.10"@ {
        Some("ruby_2_1_10"@)
    } else if v == "2.2.0"@ {
        Some("ruby_2_2_0"@)
    } else if v == "2.2.1"@ {
        Some("ruby_2_2_1"@)
    } else if v == "2.2.2"@ {
        Some("ruby_2_2_2"@)
    } else if v == "2.2.3"@ {
        Some("ruby_2_2_3"@)
    } else if v == "2.2.4"@ {
        Some("ruby_2_2_4"@)
    } else if v == "2.2.5"@ {
        Some("ruby_2_2_5"@)
    } else if v == "2.2.6"@ {
        Some("ruby_2_2_6"@)
    } else if v == "2.2.7"@ {
        Some("ruby_2_2_7"@)
    } else if v == "2.2.8"@ {
        Some("ruby_2_2_8"@)
    } else if v == "2.2.9"@ {
        Some("ruby_2_2_9"@)
    } else if v == "2.3.0"@ {
        Some("ruby_2_3_0"@)
    } else if v == "2.3.1"@ {
        Some("ruby_2_3_1"@)
    } else if v == "2.3.2"@ {
        Some("ruby_2_3_2"@)
    } else if v == "2.3.3"@ {
        Some("ruby_2_3_3"@)
    } else if v == "2.3.4"@ {
        Some("ruby_2_3_4"@)
    } else if v == "2.3.5"@ {
        Some("ruby_2_3_5"@)
    } else if v == "2.3.6"@ {
        Some("ruby_2_3_6"@)
    } else if v == "2.4.0"@ {
        Some("ruby_2_4_0"@)
    } else if v == "2.4.1"@ {
        Some("ruby_2_4_1"@)
    } else if v == "2.4.2"@ {
        Some("ruby_2_4_2"@)
    } else if v == "2.4.3"@ {
        Some("ruby_2_4_3"@)
    } else if v == "2.5.0"@ {
        Some("ruby_2_5_0_rc1"@)
    } else {
        None
    }
}

/// A version with each dot written as an underscore: `2.4.3` becomes `2_4_3`.
pub open spec fn underscored(v: Seq<char>) -> Seq<char> {
    v.map_values(|c: char| if c == '.' { '_' } else { c })
}

/// `v` is three numbers of one digit each, the first two `x` and `y`.
pub open spec fn one_digit_version(v: Seq<char>, x: char, y: char) -> bool {
    v.len() == 5 && v[0] == x && v[1] == '.' && v[2] == y && v[3] == '.'
}

/// The module of bindings named after the version `v`: `ruby_` and the version with
/// underscores, with `_0` added for the versions 1.9 and 2.0, whose bindings carry
/// four numbers, and `_rc1` for 2.5.0, read with the bindings of its first release
/// candidate.
pub open spec fn module_named_after(v: Seq<char>) -> Seq<char> {
    let base = seq!['r', 'u', 'b', 'y', '_'] + underscored(v);
    if one_digit_version(v, '1', '9') || (one_digit_version(v, '2', '0') && v[4] == '0') {
        base + seq!['_', '0']
    } else if one_digit_version(v, '2', '5') && v[4] == '0' {
        base + seq!['_', 'r', 'c', '1']
    } else {
        base
    }
}

/// The bindings chosen for a supported version are always the module named after that
/// same version.
pub proof fn law_bindings_named_after_version(v: Seq<char>)
    ensures
        ruby_bindings_model(v) matches Some(b) ==> b == module_named_after(v),
        ruby_bindings_model(v) is Some ==> exists|major: nat, minor: nat, patch: nat|
            has_bindings(major, minor, patch) && #[trigger] version_text(major, minor, patch) == v,
{
    reveal_with_fuel(dec, 2);
    if v == "1.9.1"@ {
        reveal_strlit("1.9.1");
        reveal_strlit("ruby_1_9_1_0");
        assert("ruby_1_9_1_0"@ =~= module_named_after(v));
        assert(version_text(1, 9, 1) =~= v);
    } else if v == "1.9.2"@ {
        reveal_strlit("1.9.2");
        reveal_strlit("ruby_1_9_2_0");
        assert("ruby_1_9_2_0"@ =~= module_named_after(v));
        assert(version_text(1, 9, 2) =~= v);
    } else if v == "1.9.3"@ {
        reveal_strlit("1.9.3");
        reveal_strlit("ruby_1_9_3_0");
        assert("ruby_1_9_3_0"@ =~= module_named_after(v));
        assert(version_text(1, 9, 3) =~= v);
    } else if v == "2.0.0"@ {
        reveal_strlit("2.0.0");
        reveal_strlit("ruby_2_0_0_0");
        assert("ruby_2_0_0_0"@ =~= module_named_after(v));
        assert(version_text(2, 0, 0) =~= v);
    } else if v == "2.1.0"@ {
        reveal_strlit("2.1.0");
        reveal_strlit("ruby_2_1_0");
        assert("ruby_2_1_0"@ =~= module_named_after(v));
        assert(version_text(2, 1, 0) =~= v);
    } else if v == "2.1.1"@ {
        reveal_strlit("2.1.1");
        reveal_strlit("ruby_2_1_1");
        assert("ruby_2_1_1"@ =~= module_named_after(v));
        assert(version_text(2, 1, 1) =~= v);
    } else if v == "2.1.2"@ {
        reveal_strlit("2.1.2");
        reveal_strlit("ruby_2_1_2");
        assert("ruby_2_1_2"@ =~= module_named_after(v));
        assert(version_text(2, 1, 2) =~= v);
    } else if v == "2.1.3"@ {
        reveal_strlit("2.1.3");
        reveal_strlit("ruby_2_1_3");
        assert("ruby_2_1_3"@ =~= module_named_after(v));
        assert(version_text(2, 1, 3) =~= v);
    } else if v == "2.1.4"@ {
        reveal_strlit("2.1.4");
        reveal_strlit("ruby_2_1_4");
        assert("ruby_2_1_4"@ =~= module_named_after(v));
        assert(version_text(2, 1, 4) =~= v);
    } else if v == "2.1.5"@ {
        reveal_strlit("2.1.5");
        reveal_strlit("ruby_2_1_5");
        assert("ruby_2_1_5"@ =~= module_named_after(v));
        assert(version_text(2, 1, 5) =~= v);
    } else if v == "2.1.6"@ {
        reveal_strlit("2.1.6");
        reveal_strlit("ruby_2_1_6");
        assert("ruby_2_1_6"@ =~= module_named_after(v));
        assert(version_text(2, 1, 6) =~= v);
    } else if v == "2.1.7"@ {
        reveal_strlit("2.1.7");
        reveal_strlit("ruby_2_1_7");
        assert("ruby_2_1_7"@ =~= module_named_after(v));
        assert(version_text(2, 1, 7) =~= v);
    } else if v == "2.1.8"@ {
        reveal_strlit("2.1.8");
        reveal_strlit("ruby_2_1_8");
        assert("ruby_2_1_8"@ =~= module_named_after(v));
        assert(version_text(2, 1, 8) =~= v);
    } else if v == "2.1.9"@ {
        reveal_strlit("2.1.9");
        reveal_strlit("ruby_2_1_9");
        assert("ruby_2_1_9"@ =~= module_named_after(v));
        assert(version_text(2, 1, 9) =~= v);
    } else if v == "2.1.10"@ {
        reveal_strlit("2.1.10");
        reveal_strlit("ruby_2_1_10");
        assert("ruby_2_1_10"@ =~= module_named_after(v));
        assert(version_text(2, 1, 10) =~= v);
    } else if v == "2.2.0"@ {
        reveal_strlit("2.2.0");
        reveal_strlit("ruby_2_2_0");
        assert("ruby_2_2_0"@ =~= module_named_after(v));
        assert(version_text(2, 2, 0) =~= v);
    } else if v == "2.2.1"@ {
        reveal_strlit("2.2.1");
        reveal_strlit("ruby_2_2_1");
        assert("ruby_2_2_1"@ =~= module_named_after(v));
        assert(version_text(2, 2, 1) =~= v);
    } else if v == "2.2.2"@ {
        reveal_strlit("2.2.2");
        reveal_strlit("ruby_2_2_2");
        assert("ruby_2_2_2"@ =~= module_named_after(v));
        assert(version_text(2, 2, 2) =~= v);
    } else if v == "2.2.3"@ {
        reveal_strlit("2.2.3");
        reveal_strlit("ruby_2_2_3");
        assert("ruby_2_2_3"@ =~= module_named_after(v));
        assert(version_text(2, 2, 3) =~= v);
    } else if v == "2.2.4"@ {
        reveal_strlit("2.2.4");
        reveal_strlit("ruby_2_2_4");
        assert("ruby_2_2_4"@ =~= module_named_after(v));
        assert(version_text(2, 2, 4) =~= v);
    } else if v == "2.2.5"@ {
        reveal_strlit("2.2.5");
        reveal_strlit("ruby_2_2_5");
        assert("ruby_2_2_5"@ =~= module_named_after(v));
        assert(version_text(2, 2, 5) =~= v);
    } else if v == "2.2.6"@ {
        reveal_strlit("2.2.6");
        reveal_strlit("ruby_2_2_6");
        assert("ruby_2_2_6"@ =~= module_named_after(v));
        assert(version_text(2, 2, 6) =~= v);
    } else if v == "2.2.7"@ {
        reveal_strlit("2.2.7");
        reveal_strlit("ruby_2_2_7");
        assert("ruby_2_2_7"@ =~= module_named_after(v));
        assert(version_text(2, 2, 7) =~= v);
    } else if v == "2.2.8"@ {
        reveal_strlit("2.2.8");
        reveal_strlit("ruby_2_2_8");
        assert("ruby_2_2_8"@ =~= module_named_after(v));
        assert(version_text(2, 2, 8) =~= v);
    } else if v == "2.2.9"@ {
        reveal_strlit("2.2.9");
        reveal_strlit("ruby_2_2_9");
        assert("ruby_2_2_9"@ =~= module_named_after(v));
        assert(version_text(2, 2, 9) =~= v);
    } else if v == "2.3.0"@ {
        reveal_strlit("2.3.0");
        reveal_strlit("ruby_2_3_0");
        assert("ruby_2_3_0"@ =~= module_named_after(v));
        assert(version_text(2, 3, 0) =~= v);
    } else if v == "2.3.1"@ {
        reveal_strlit("2.3.1");
        reveal_strlit("ruby_2_3_1");
        assert("ruby_2_3_1"@ =~= module_named_after(v));
        assert(version_text(2, 3, 1) =~= v);
    } else if v == "2.3.2"@ {
        reveal_strlit("2.3.2");
        reveal_strlit("ruby_2_3_2");
        assert("ruby_2_3_2"@ =~= module_named_after(v));
        assert(version_text(2, 3, 2) =~= v);
    } else if v == "2.3.3"@ {
        reveal_strlit("2.3.3");
        reveal_strlit("ruby_2_3_3");
        assert("ruby_2_3_3"@ =~= module_named_after(v));
        assert(version_text(2, 3, 3) =~= v);
    } else if v == "2.3.4"@ {
        reveal_strlit("2.3.4");
        reveal_strlit("ruby_2_3_4");
        assert("ruby_2_3_4"@ =~= module_named_after(v));
        assert(version_text(2, 3, 4) =~= v);
    } else if v == "2.3.5"@ {
        reveal_strlit("2.3.5");
        reveal_strlit("ruby_2_3_5");
        assert("ruby_2_3_5"@ =~= module_named_after(v));
        assert(version_text(2, 3, 5) =~= v);
    } else if v == "2.3.6"@ {
        reveal_strlit("2.3.6");
        reveal_strlit("ruby_2_3_6");
        assert("ruby_2_3_6"@ =~= module_named_after(v));
        assert(version_text(2, 3, 6) =~= v);
    } else if v == "2.4.0"@ {
        reveal_strlit("2.4.0");
        reveal_strlit("ruby_2_4_0");
        assert("ruby_2_4_0"@ =~= module_named_after(v));
        assert(version_text(2, 4, 0) =~= v);
    } else if v == "2.4.1"@ {
        reveal_strlit("2.4.1");
        reveal_strlit("ruby_2_4_1");
        assert("ruby_2_4_1"@ =~= module_named_after(v));
        assert(version_text(2, 4, 1) =~= v);
    } else if v == "2.4.2"@ {
        reveal_strlit("2.4.2");
        reveal_strlit("ruby_2_4_2");
        assert("ruby_2_4_2"@ =~= module_named_after(v));
        assert(version_text(2, 4, 2) =~= v);
    } else if v == "2.4.3"@ {
        reveal_strlit("2.4.3");
        reveal_strlit("ruby_2_4_3");
        assert("ruby_2_4_3"@ =~= module_named_after(v));
        assert(version_text(2, 4, 3) =~= v);
    } else if v == "2.5.0"@ {
        reveal_strlit("2.5.0");
        reveal_strlit("ruby_2_5_0_rc1");
        assert("ruby_2_5_0_rc1"@ =~= module_named_after(v));
        assert(version_text(2, 5, 0) =~= v);
    }
}

/// The version `major.minor.patch`, written as Ruby reports it.
pub open spec fn version_text(major: nat, minor: nat, patch: nat) -> Seq<char> {
    dec(major) + seq!['.'] + dec(minor) + seq!['.'] + dec(patch)
}

/// The versions that have bindings: 1.9.1 to 1.9.3, 2.0.0, 2.1.0 to 2.1.10, 2.2.0 to
/// 2.2.9, 2.3.0 to 2.3.6, 2.4.0 to 2.4.3 and 2.5.0.
pub open spec fn has_bindings(major: nat, minor: nat, patch: nat) -> bool {
    ||| major == 1 && minor == 9 && 1 <= patch <= 3
    ||| major == 2 && minor == 0 && patch == 0
    ||| major == 2 && minor == 1 && patch <= 10
    ||| major == 2 && minor == 2 && patch <= 9
    ||| major == 2 && minor == 3 && patch <= 6
    ||| major == 2 && minor == 4 && patch <= 3
    ||| major == 2 && minor == 5 && patch == 0
}

/// Every version with bindings is read with the module named after it.
pub proof fn law_supported_versions_have_bindings(major: nat, minor: nat, patch: nat)
    requires
        has_bindings(major, minor, patch),
    ensures
        ruby_bindings_model(version_text(major, minor, patch)) == Some(module_named_after(version_text(major, minor, patch))),
{
    let t = version_text(major, minor, patch);
    reveal_with_fuel(dec, 2);
    reveal_strlit("1.9.1");
    reveal_strlit("1.9.2");
    reveal_strlit("1.9.3");
    reveal_strlit("2.0.0");
    reveal_strlit("2.1.0");
    reveal_strlit("2.1.1");
    reveal_strlit("2.1.2");
    reveal_strlit("2.1.3");
    reveal_strlit("2.1.4");
    reveal_strlit("2.1.5");
    reveal_strlit("2.1.6");
    reveal_strlit("2.1.7");
    reveal_strlit("2.1.8");
    reveal_strlit("2.1.9");
    reveal_strlit("2.1.10");
    reveal_strlit("2.2.0");
    reveal_strlit("2.2.1");
    reveal_strlit("2.2.2");
    reveal_strlit("2.2.3");
    reveal_strlit("2.2.4");
    reveal_strlit("2.2.5");
    reveal_strlit("2.2.6");
    reveal_strlit("2.2.7");
    reveal_strlit("2.2.8");
    reveal_strlit("2.2.9");
    reveal_strlit("2.3.0");
    reveal_strlit("2.3.1");
    reveal_strlit("2.3.2");
    reveal_strlit("2.3.3");
    reveal_strlit("2.3.4");
    reveal_strlit("2.3.5");
    reveal_strlit("2.3.6");
    reveal_strlit("2.4.0");
    reveal_strlit("2.4.1");
    reveal_strlit("2.4.2");
    reveal_strlit("2.4.3");
    reveal_strlit("2.5.0");
    if major == 1 && minor == 9 && patch == 1 {
        assert(t =~= "1.9.1"@);
    } else if major == 1 && minor == 9 && patch == 2 {
        assert(t =~= "1.9.2"@);
    } else if major == 1 && minor == 9 && patch == 3 {
        assert(t =~= "1.9.3"@);
    } else if major == 2 && minor == 0 && patch == 0 {
        assert(t =~= "2.0.0"@);
    } else if major == 2 && minor == 1 && patch == 0 {
        assert(t =~= "2.1.0"@);
    } else if major == 2 && minor == 1 && patch == 1 {
        assert(t =~= "2.1.1"@);
    } else if major == 2 && minor == 1 && patch == 2 {
        assert(t =~= "2.1.2"@);
    } else if major == 2 && minor == 1 && patch == 3 {
        assert(t =~= "2.1.3"@);
    } else if major == 2 && minor == 1 && patch == 4 {
        assert(t =~= "2.1.4"@);
    } else if major == 2 && minor == 1 && patch == 5 {
        assert(t =~= "2.1.5"@);
    } else if major == 2 && minor == 1 && patch == 6 {
        assert(t =~= "2.1.6"@);
    } else if major == 2 && minor == 1 && patch == 7 {
        assert(t =~= "2.1.7"@);
    } else if major == 2 && minor == 1 && patch == 8 {
        assert(t =~= "2.1.8"@);
    } else if major == 2 && minor == 1 && patch == 9 {
        assert(t =~= "2.1.9"@);
    } else if major == 2 && minor == 1 && patch == 10 {
        assert(t =~= "2.1.10"@);
    } else if major == 2 && minor == 2 && patch == 0 {
        assert(t =~= "2.2.0"@);
    } else if major == 2 && minor == 2 && patch == 1 {
        assert(t =~= "2.2.1"@);
    } else if major == 2 && minor == 2 && patch == 2 {
        assert(t =~= "2.2.2"@);
    } else if major == 2 && minor == 2 && patch == 3 {
        assert(t =~= "2.2.3"@);
    } else if major == 2 && minor == 2 && patch == 4 {
        assert(t =~= "2.2.4"@);
    } else if major == 2 && minor == 2 && patch == 5 {
        assert(t =~= "2.2.5"@);
    } else if major == 2 && minor == 2 && patch == 6 {
        assert(t =~= "2.2.6"@);
    } else if major == 2 && minor == 2 && patch == 7 {
        assert(t =~= "2.2.7"@);
    } else if major == 2 && minor == 2 && patch == 8 {
        assert(t =~= "2.2.8"@);
    } else if major == 2 && minor == 2 && patch == 9 {
        assert(t =~= "2.2.9"@);
    } else if major == 2 && minor == 3 && patch == 0 {
        assert(t =~= "2.3.0"@);
    } else if major == 2 && minor == 3 && patch == 1 {
        assert(t =~= "2.3.1"@);
    } else if major == 2 && minor == 3 && patch == 2 {
        assert(t =~= "2.3.2"@);
    } else if major == 2 && minor == 3 && patch == 3 {
        assert(t =~= "2.3.3"@);
    } else if major == 2 && minor == 3 && patch == 4 {
        assert(t =~= "2.3.4"@);
    } else if major == 2 && minor == 3 && patch == 5 {
        assert(t =~= "2.3.5"@);
    } else if major == 2 && minor == 3 && patch == 6 {
        assert(t =~= "2.3.6"@);
    } else if major == 2 && minor == 4 && patch == 0 {
        assert(t =~= "2.4.0"@);
    } else if major == 2 && minor == 4 && patch == 1 {
        assert(t =~= "2.4.1"@);
    } else if major == 2 && minor == 4 && patch == 2 {
        assert(t =~= "2.4.2"@);
    } else if major == 2 && minor == 4 && patch == 3 {
        assert(t =~= "2.4.3"@);
    } else if major == 2 && minor == 5 && patch == 0 {
        assert(t =~= "2.5.0"@);
    }
    law_bindings_named_after_version(t);
}

/// Whether two texts are the same.
fn same_text(a: &str, b: &str) -> (r: bool)
    ensures
        r == (a@ == b@),
{
    let x = chars_of(a);
    let y = chars_of(b);
    if x.len() != y.len() {
        return false;
    }
    let mut i: usize = 0;
    while i < x.len()
        invariant
            x@ == a@,
            y@ == b@,
            x@.len() == y@.len(),
            i <= x@.len(),
            forall|j: int| 0 <= j < i ==> x@[j] == y@[j],
        decreases x@.len() - i,
    {
        if x[i] != y[i] {
            return false;
        }
        i = i + 1;
    }
    assert(x@ =~= y@);
    true
}

/// The module of interpreter structure bindings for the Ruby version `version`: the
/// same table chooses how threads are recognised and how stacks are read. Ruby 2.5.0
/// is read with the bindings of its first release candidate. None for a version
/// without bindings.
pub fn ruby_bindings(version: &str) -> (r: Option<&'static str>)
    ensures
        match r {
            Some(b) => ruby_bindings_model(version@) == Some(b@),
            None => ruby_bindings_model(version@) is None,
        },
{
    if same_text(version, "1.9.1") {
        return Some("ruby_1_9_1_0");
    }
    if same_text(version, "1.9.2") {
        return Some("ruby_1_9_2_0");
    }
    if same_text(version, "1.9.3") {
        return Some("ruby_1_9_3_0");
    }
    if same_text(version, "2.0.0") {
        return Some("ruby_2_0_0_0");
    }
    if same_text(version, "2.1.0") {
        return Some("ruby_2_1_0");
    }
    if same_text(version, "2.1.1") {
        return Some("ruby_2_1_1");
    }
    if same_text(version, "2.1.2") {
        return Some("ruby_2_1_2");
    }
    if same_text(version, "2.1.3") {
        return Some("ruby_2_1_3");
    }
    if same_text(version, "2.1.4") {
        return Some("ruby_2_1_4");
    }
    if same_text(version, "2.1.5") {
        return Some("ruby_2_1_5");
    }
    if same_text(version, "2.1.6") {
        return Some("ruby_2_1_6");
    }
    if same_text(version, "2.1.7") {
        return Some("ruby_2_1_7");
    }
    if same_text(version, "2.1.8") {
        return Some("ruby_2_1_8");
    }
    if same_text(version, "2.1.9") {
        return Some("ruby_2_1_9");
    }
    if same_text(version, "2.1.10") {
        return Some("ruby_2_1_10");
    }
    if same_text(version, "2.2.0") {
        return Some("ruby_2_2_0");
    }
    if same_text(version, "2.2.1") {
        return Some("ruby_2_2_1");
    }
    if same_text(version, "2.2.2") {
        return Some("ruby_2_2_2");
    }
    if same_text(version, "2.2.3") {
        return Some("ruby_2_2_3");
    }
    if same_text(version, "2.2.4") {
        return Some("ruby_2_2_4");
    }
    if same_text(version, "2.2.5") {
        return Some("ruby_2_2_5");
    }
    if same_text(version, "2.2.6") {
        return Some("ruby_2_2_6");
    }
    if same_text(version, "2.2.7") {
        return Some("ruby_2_2_7");
    }
    if same_text(version, "2.2.8") {
        return Some("ruby_2_2_8");
    }
    if same_text(version, "2.2.9") {
        return Some("ruby_2_2_9");
    }
    if same_text(version, "2.3.0") {
        return Some("ruby_2_3_0");
    }
    if same_text(version, "2.3.1") {
        return Some("ruby_2_3_1");
    }
    if same_text(version, "2.3.2") {
        return Some("ruby_2_3_2");
    }
    if same_text(version, "2.3.3") {
        return Some("ruby_2_3_3");
    }
    if same_text(version, "2.3.4") {
        return Some("ruby_2_3_4");
    }
    if same_text(version, "2.3.5") {
        return Some("ruby_2_3_5");
    }
    if same_text(version, "2.3.6") {
        return Some("ruby_2_3_6");
    }
    if same_text(version, "2.4.0") {
        return Some("ruby_2_4_0");
    }
    if same_text(version, "2.4.1") {
        return Some("ruby_2_4_1");
    }
    if same_text(version, "2.4.2") {
        return Some("ruby_2_4_2");
    }
    if same_text(version, "2.4.3") {
        return Some("ruby_2_4_3");
    }
    if same_text(version, "2.5.0") {
        return Some("ruby_2_5_0_rc1");
    }
    None
}

} // verus!
