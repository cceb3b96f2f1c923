//! A domain name checked against the pattern of a usual host name.
use vstd::prelude::*;
use vstd::string::*;

verus! {

/// Whether `pattern` is a valid regular expression that matches `s`.
pub uninterp spec fn regex_matches(pattern: Seq<char>, s: Seq<char>) -> bool;

/// Relies on regex's `Regex::new` and `Regex::is_match`: whether `pattern`
/// compiles and matches somewhere in `s`. The answer depends on the two texts
/// alone.
#[verifier::external_body]
fn regex_is_match(pattern: &str, s: &str) -> (r: bool)
    ensures
        r == regex_matches(pattern@, s@),
{
    match regex::Regex::new(pattern) {
        Ok(re) => re.is_match(s),
        Err(_) => false,
    }
}

/// Labels of letters, digits and inner hyphens, at most 63 characters each,
/// each followed by a dot, then two to six letters.
pub const DOMAIN_PATTERN: &'static str = r"^(?:[a-zA-Z0-9](?:[a-zA-Z0-9-]{0,61}[a-zA-Z0-9])?\.)+[a-zA-Z]{2,6}$";

/// The domain pattern matches `s`.
pub open spec fn is_domain_text(s: Seq<char>) -> bool {
    regex_matches(DOMAIN_PATTERN@, s)
}

/// A query for a domain name that looks like a host name.
#[derive(Debug)]
pub struct DNSQuery {
    domain: String,
}

impl View for DNSQuery {
    type V = Seq<char>;

    closed spec fn view(&self) -> Seq<char> {
        self.domain@
    }
}

impl DNSQuery {
    /// A query for `domain`, or the reason it is refused, once it is known
    /// whether `domain` matches the domain pattern.
    pub fn checked(domain: &str, matches: bool) -> (r: Result<DNSQuery, String>)
        ensures
            r is Ok <==> matches,
            r matches Ok(q) ==> q@ == domain@,
            r matches Err(e) ==> e@ == "Invalid domain: "@ + domain@,
    {
        if matches {
            Ok(DNSQuery { domain: domain.to_owned() })
        } else {
            let mut e: String = "Invalid domain: ".to_owned();
            e.append(domain);
            Err(e)
        }
    }

    /// A query for `domain` if it matches the domain pattern.
    pub fn new(domain: &str) -> (r: Result<DNSQuery, String>)
        ensures
            r is Ok <==> is_domain_text(domain@),
            r matches Ok(q) ==> q@ == domain@,
            r matches Err(e) ==> e@ == "Invalid domain: "@ + domain@,
    {
        Self::checked(domain, regex_is_match(DOMAIN_PATTERN, domain))
    }

    /// The domain asked about.
    pub fn domain(&self) -> (r: &str)
        ensures
            r@ == self@,
    {
        self.domain.as_str()
    }
}

} // verus!
