//! Preference domains: the names under which key/value stores live.

use vstd::prelude::*;
use vstd::string::StrSliceExecFns;
use vstd::string::StringExecFns;

use crate::error::PrefError;

verus! {

/// A preference domain: an application-scoped name, the global domain, or
/// a direct path to a property-list file.
///
/// `Path` domains are never routed to the native preference service; they
/// always address the file backend.
#[derive(Debug, PartialEq, Eq, Hash)]
pub enum Domain {
    /// A user domain, e.g. `"com.example.app"`.
    User(String),
    /// The global preferences domain, shown as `"NSGlobalDomain"`.
    Global,
    /// A direct path to a plist file.
    Path(String),
}

/// Mathematical model of a `Domain`.
pub enum SpecDomain {
    User(Seq<char>),
    Global,
    Path(Seq<char>),
}

impl View for Domain {
    type V = SpecDomain;

    open spec fn view(&self) -> SpecDomain {
        match self {
            Domain::User(s) => SpecDomain::User(s@),
            Domain::Global => SpecDomain::Global,
            Domain::Path(p) => SpecDomain::Path(p@),
        }
    }
}

/// The name the native preference service knows a domain by.  A `Path`
/// domain never reaches that service; it keeps its path as its name.
pub open spec fn spec_cf_name(d: SpecDomain) -> Seq<char> {
    match d {
        SpecDomain::Global => ".GlobalPreferences"@,
        SpecDomain::User(n) => n,
        SpecDomain::Path(p) => p,
    }
}

/// The name a domain is listed and reported under.
pub open spec fn spec_display_name(d: SpecDomain) -> Seq<char> {
    match d {
        SpecDomain::Global => "NSGlobalDomain"@,
        SpecDomain::User(n) => n,
        SpecDomain::Path(p) => p,
    }
}

/// The file that backs a domain, under the preferences directory of `home`.
pub open spec fn spec_domain_path(d: SpecDomain, home: Seq<char>) -> Seq<char> {
    match d {
        SpecDomain::Global => home + "/Library/Preferences/.GlobalPreferences.plist"@,
        SpecDomain::User(n) => home + "/Library/Preferences/"@ + n + ".plist"@,
        SpecDomain::Path(p) => p,
    }
}

impl Domain {
    /// Returns the native-service (CoreFoundation) name for this domain.
    pub fn get_cf_name(&self) -> (r: String)
        ensures
            r@ == spec_cf_name(self@),
    {
        match self {
            Domain::Global => ".GlobalPreferences".to_owned(),
            Domain::User(name) => name.clone(),
            Domain::Path(p) => p.clone(),
        }
    }

    /// Returns the name this domain is displayed and listed under.
    pub fn display_name(&self) -> (r: String)
        ensures
            r@ == spec_display_name(self@),
    {
        match self {
            Domain::Global => "NSGlobalDomain".to_owned(),
            Domain::User(name) => name.clone(),
            Domain::Path(p) => p.clone(),
        }
    }

    /// Returns the filesystem path backing this domain, given the home
    /// directory the preferences tree lives under.
    pub fn domain_path(&self, home: &str) -> (r: String)
        ensures
            r@ == spec_domain_path(self@, home@),
    {
        match self {
            Domain::Global => home.to_owned().concat("/Library/Preferences/.GlobalPreferences.plist"),
            Domain::User(name) => home
                .to_owned()
                .concat("/Library/Preferences/")
                .concat(name.as_str())
                .concat(".plist"),
            Domain::Path(p) => p.clone(),
        }
    }

    /// Whether this and `other` name the same domain.
    pub fn same_as(&self, other: &Domain) -> (r: bool)
        ensures
            r == (self@ == other@),
    {
        match self {
            Domain::Global => match other {
                Domain::Global => true,
                _ => false,
            },
            Domain::User(a) => match other {
                Domain::User(b) => *a == *b,
                _ => false,
            },
            Domain::Path(a) => match other {
                Domain::Path(b) => *a == *b,
                _ => false,
            },
        }
    }

    /// A structural copy of this domain, equal to it in the model.
    pub fn deep_clone(&self) -> (r: Domain)
        ensures
            r@ == self@,
    {
        match self {
            Domain::User(s) => Domain::User(s.clone()),
            Domain::Global => Domain::Global,
            Domain::Path(p) => Domain::Path(p.clone()),
        }
    }
}

/// A domain argument with any trailing `.plist` taken off.
pub open spec fn spec_strip_plist(s: Seq<char>) -> Seq<char> {
    if crate::text::spec_ends_with(s, ".plist"@) {
        s.subrange(0, s.len() - ".plist"@.len())
    } else {
        s
    }
}

/// The spellings under which the global domain can be named.
pub open spec fn spec_is_global_name(s: Seq<char>) -> bool {
    s == "-g"@ || s == "NSGlobalDomain"@ || s == "-globalDomain"@
}

/// The characters a domain name may hold.
pub open spec fn spec_valid_domain_chars(s: Seq<char>) -> bool {
    forall|i: int|
        0 <= i < s.len() ==> crate::text::alnum_char(#[trigger] s[i]) || s[i] == '.' || s[i] == '_'
            || s[i] == '-'
}

/// Whether a stripped domain argument names a well-formed user domain:
/// no parent-directory runs, only domain characters.
pub open spec fn spec_valid_domain(s: Seq<char>) -> bool {
    !crate::text::spec_is_substring(s, ".."@) && spec_valid_domain_chars(s)
}

/// Parse a domain argument: any `.plist` suffix comes off, the global
/// domain's spellings name the global domain, and anything else must be
/// a well-formed user-domain name.  Unless `force` is set, the name must
/// also appear among `known` domains.
pub fn parse_domain_arg(arg: &str, known: &Vec<String>, force: bool) -> (r: Result<
    Domain,
    PrefError,
>)
    ensures
        spec_is_global_name(spec_strip_plist(arg@)) ==> (r matches Ok(d) && d@ is Global),
        !spec_is_global_name(spec_strip_plist(arg@)) && !spec_valid_domain(
            spec_strip_plist(arg@),
        ) ==> (r matches Err(e) && e matches PrefError::Other(m) && m@
            == "Invalid domain or plist path: "@ + spec_strip_plist(arg@)),
        (!spec_is_global_name(spec_strip_plist(arg@)) && spec_valid_domain(spec_strip_plist(arg@))
            && (force || exists|i: int|
            0 <= i < known@.len() && (#[trigger] known@[i])@ == spec_strip_plist(arg@))) ==> (r
            matches Ok(d) && d@ == SpecDomain::User(spec_strip_plist(arg@))),
        (!spec_is_global_name(spec_strip_plist(arg@)) && spec_valid_domain(spec_strip_plist(arg@))
            && !force && !(exists|i: int|
            0 <= i < known@.len() && (#[trigger] known@[i])@ == spec_strip_plist(arg@))) ==> (r
            matches Err(e) && e matches PrefError::Other(m) && m@ == "Domain '"@ + arg@
            + "' not found!."@),
{
    let stripped: String = if crate::text::ends_with_str(arg, ".plist") {
        proof {
            reveal_strlit(".plist");
        }
        arg.substring_char(0, arg.unicode_len() - 6).to_owned()
    } else {
        arg.to_owned()
    };
    if stripped == "-g".to_owned() || stripped == "NSGlobalDomain".to_owned() || stripped
        == "-globalDomain".to_owned() {
        return Ok(Domain::Global);
    }
    let mut chars_ok = true;
    let n = stripped.as_str().unicode_len();
    for i in 0..n
        invariant
            n == stripped@.len(),
            chars_ok ==> forall|j: int|
                0 <= j < i ==> crate::text::alnum_char(#[trigger] stripped@[j]) || stripped@[j]
                    == '.' || stripped@[j] == '_' || stripped@[j] == '-',
            !chars_ok ==> !spec_valid_domain_chars(stripped@),
        decreases n - i,
    {
        let c = stripped.as_str().get_char(i);
        if !(crate::text::char_is_alphanumeric(c) || c == '.' || c == '_' || c == '-') {
            chars_ok = false;
        }
    }
    if !chars_ok || crate::text::contains_sub(stripped.as_str(), "..") {
        return Err(
            PrefError::Other(
                "Invalid domain or plist path: ".to_owned().concat(stripped.as_str()),
            ),
        );
    }
    if !force {
        let mut found = false;
        let m = known.len();
        for i in 0..m
            invariant
                m == known@.len(),
                found ==> exists|j: int|
                    0 <= j < known@.len() && (#[trigger] known@[j])@ == stripped@,
                !found ==> forall|j: int| 0 <= j < i ==> (#[trigger] known@[j])@ != stripped@,
            decreases m - i,
        {
            if known[i] == stripped {
                found = true;
            }
        }
        if !found {
            return Err(
                PrefError::Other(
                    "Domain '".to_owned().concat(arg).concat("' not found!."),
                ),
            );
        }
    }
    Ok(Domain::User(stripped))
}

} // verus!
