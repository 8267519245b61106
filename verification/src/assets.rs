//! The build-assets endpoints: how the asset-version URLs are formed from
//! the configured domain, and the post-processing of what the endpoints
//! return. The HTTP round trips themselves are plumbing outside the library.
use vstd::prelude::*;

use crate::text::{bytes_of, lit, push_lit, push_bytes};

verus! {

/// How requests authenticate. The assets endpoints take no authentication.
#[derive(Clone)]
pub enum AuthMode {
    NoAuth,
    ApiKey(String),
    BearerAuth(String),
}

/// Client of the build-assets service: owns the domain the URLs point at.
pub struct AssetsClient {
    pub domain: Vec<u8>,
}

pub open spec fn spec_base_url(domain: Seq<u8>) -> Seq<u8> {
    bytes_of("https://cage-build-assets."@) + domain
}

impl AssetsClient {
    /// A client for the default domain.
    pub fn new() -> (c: AssetsClient)
        ensures
            c.domain@ == bytes_of("evervault.com"@),
    {
        proof {
            reveal_strlit("evervault.com");
        }
        AssetsClient { domain: lit("evervault.com") }
    }

    /// A client for an explicitly configured domain.
    pub fn with_domain(domain: Vec<u8>) -> (c: AssetsClient)
        ensures
            c.domain@ == domain@,
    {
        AssetsClient { domain }
    }

    pub fn base_url(&self) -> (r: Vec<u8>)
        ensures
            r@ == spec_base_url(self.domain@),
    {
        proof {
            reveal_strlit("https://cage-build-assets.");
        }
        let mut r = lit("https://cage-build-assets.");
        push_bytes(&mut r, self.domain.as_slice());
        r
    }

    /// Where the latest command-line version is published.
    pub fn cli_version_url(&self) -> (r: Vec<u8>)
        ensures
            r@ == spec_base_url(self.domain@) + bytes_of("/cli/version"@),
    {
        proof {
            reveal_strlit("/cli/version");
        }
        let mut r = self.base_url();
        push_lit(&mut r, "/cli/version");
        r
    }

    /// Where the install script is published.
    pub fn cli_install_url(&self) -> (r: Vec<u8>)
        ensures
            r@ == spec_base_url(self.domain@) + bytes_of("/cli/install"@),
    {
        proof {
            reveal_strlit("/cli/install");
        }
        let mut r = self.base_url();
        push_lit(&mut r, "/cli/install");
        r
    }

    /// Where the latest runtime (data-plane) version is published.
    pub fn runtime_latest_url(&self) -> (r: Vec<u8>)
        ensures
            r@ == spec_base_url(self.domain@) + bytes_of("/runtime/latest"@),
    {
        proof {
            reveal_strlit("/runtime/latest");
        }
        let mut r = self.base_url();
        push_lit(&mut r, "/runtime/latest");
        r
    }

    /// Where the latest installer version is published.
    pub fn installer_latest_url(&self) -> (r: Vec<u8>)
        ensures
            r@ == spec_base_url(self.domain@) + bytes_of("/installer/latest"@),
    {
        proof {
            reveal_strlit("/installer/latest");
        }
        let mut r = self.base_url();
        push_lit(&mut r, "/installer/latest");
        r
    }
}

impl Default for AssetsClient {
    fn default() -> (c: AssetsClient)
        ensures
            c.domain@ == bytes_of("evervault.com"@),
    {
        AssetsClient::new()
    }
}

pub open spec fn is_trim_space(b: u8) -> bool {
    b == 32 || b == 9 || b == 10 || b == 13
}

/// First index at or after `i` whose byte is not whitespace.
pub open spec fn trim_start_idx(s: Seq<u8>, i: int) -> int
    decreases s.len() - i,
{
    if !(0 <= i < s.len()) {
        i
    } else if !is_trim_space(s[i]) {
        i
    } else {
        trim_start_idx(s, i + 1)
    }
}

/// Last index at or before `j` that ends a non-whitespace run.
pub open spec fn trim_end_idx(s: Seq<u8>, j: int) -> int
    decreases j,
{
    if j <= 0 {
        0
    } else if !is_trim_space(s[j - 1]) {
        j
    } else {
        trim_end_idx(s, j - 1)
    }
}

/// The installer endpoint's body without surrounding whitespace.
pub open spec fn spec_trim(s: Seq<u8>) -> Seq<u8> {
    let a = trim_start_idx(s, 0);
    let b = trim_end_idx(s, s.len() as int);
    if a <= b {
        s.subrange(a, b)
    } else {
        Seq::empty()
    }
}

proof fn lemma_trim_start_is(s: Seq<u8>, i: int, j: int)
    requires
        0 <= i <= j <= s.len(),
        forall|k: int| i <= k < j ==> is_trim_space(s[k]),
        j == s.len() || !is_trim_space(s[j]),
    ensures
        trim_start_idx(s, i) == j,
    decreases j - i,
{
    if i < j {
        lemma_trim_start_is(s, i + 1, j);
    }
}

proof fn lemma_trim_end_is(s: Seq<u8>, j: int, b: int)
    requires
        0 <= b <= j <= s.len(),
        forall|k: int| b <= k < j ==> is_trim_space(s[k]),
        b == 0 || !is_trim_space(s[b - 1]),
    ensures
        trim_end_idx(s, j) == b,
    decreases j - b,
{
    if b < j {
        lemma_trim_end_is(s, j - 1, b);
    }
}

fn trim_space_byte(b: u8) -> (r: bool)
    ensures
        r == is_trim_space(b),
{
    b == 32 || b == 9 || b == 10 || b == 13
}

/// Trim leading and trailing whitespace, as the installer version text needs.
pub fn trim_bytes(v: &Vec<u8>) -> (r: Vec<u8>)
    ensures
        r@ == spec_trim(v@),
{
    let n: usize = v.len();
    let mut a: usize = 0;
    while a < n && trim_space_byte(v[a])
        invariant
            a <= n,
            n == v@.len(),
            forall|k: int| 0 <= k < a ==> is_trim_space(v@[k]),
        decreases n - a,
    {
        a = a + 1;
    }
    proof {
        lemma_trim_start_is(v@, 0, a as int);
    }
    let mut b: usize = n;
    while b > a && trim_space_byte(v[b - 1])
        invariant
            a <= b <= n,
            n == v@.len(),
            forall|k: int| b <= k < n ==> is_trim_space(v@[k]),
        decreases b,
    {
        b = b - 1;
    }
    if b == a {
        proof {
            assert(forall|k: int| 0 <= k < n ==> is_trim_space(v@[k]));
            lemma_trim_end_is(v@, n as int, 0);
            if n > 0 {
                assert(a == n);
                assert(spec_trim(v@) =~= Seq::<u8>::empty());
            } else {
                assert(spec_trim(v@) =~= v@.subrange(0, 0));
                assert(spec_trim(v@) =~= Seq::<u8>::empty());
            }
        }
        let r: Vec<u8> = Vec::new();
        proof {
            assert(r@ =~= spec_trim(v@));
        }
        r
    } else {
        proof {
            lemma_trim_end_is(v@, n as int, b as int);
        }
        crate::text::sub_vec(v.as_slice(), a, b)
    }
}

} // verus!
