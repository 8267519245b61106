//! Certificate subject handling: the distinguished name that signing
//! certificates are issued under, and the parser for a caller-supplied
//! subject string such as `/CN=EV/C=IE/ST=LEI/L=DUB/O=Evervault/OU=Eng`.
//! Key generation and PKI calls themselves are external collaborators.
use vstd::prelude::*;

use vstd::string::StrSliceExecFns;
use vstd::string::StringSliceAdditionalSpecFns;
use crate::text::{bytes_of, find_byte, lemma_find_byte, find_byte_exec, sub_vec, bytes_eq, lit};

verus! {

/// A certificate subject, field by field.
#[derive(Debug)]
pub struct DistinguishedName {
    pub common_name: Vec<u8>,
    pub country: Vec<u8>,
    pub state: Vec<u8>,
    pub locality: Vec<u8>,
    pub org: Vec<u8>,
    pub org_unit: Vec<u8>,
}

/// The same subject at the model level.
pub struct DnModel {
    pub common_name: Seq<u8>,
    pub country: Seq<u8>,
    pub state: Seq<u8>,
    pub locality: Seq<u8>,
    pub org: Seq<u8>,
    pub org_unit: Seq<u8>,
}

impl View for DistinguishedName {
    type V = DnModel;

    open spec fn view(&self) -> DnModel {
        DnModel {
            common_name: self.common_name@,
            country: self.country@,
            state: self.state@,
            locality: self.locality@,
            org: self.org@,
            org_unit: self.org_unit@,
        }
    }
}

#[derive(Clone, Copy, PartialEq, Eq, Structural, Debug)]
pub enum CertError {
    /// The subject string is not of the form `/KEY=VALUE/...` with known keys.
    InvalidSubject,
}

/// The generic Cages subject used when no subject is given.
pub open spec fn spec_default_dn() -> DnModel {
    DnModel {
        common_name: bytes_of("cages.evervault.com"@),
        country: bytes_of("IE"@),
        state: bytes_of("LEI"@),
        locality: bytes_of("DUB"@),
        org: bytes_of("Evervault"@),
        org_unit: bytes_of("Eng"@),
    }
}

/// Apply one `KEY=VALUE` segment to a subject under construction.
pub open spec fn spec_apply_kv(seg: Seq<u8>, dn: DnModel) -> Result<DnModel, CertError> {
    let q = find_byte(seg, 0, 61);
    if q >= seg.len() {
        Err(CertError::InvalidSubject)
    } else {
        let key = seg.subrange(0, q);
        let val = seg.subrange(q + 1, seg.len() as int);
        if key == bytes_of("CN"@) {
            Ok(DnModel { common_name: val, ..dn })
        } else if key == bytes_of("C"@) {
            Ok(DnModel { country: val, ..dn })
        } else if key == bytes_of("ST"@) {
            Ok(DnModel { state: val, ..dn })
        } else if key == bytes_of("L"@) {
            Ok(DnModel { locality: val, ..dn })
        } else if key == bytes_of("O"@) {
            Ok(DnModel { org: val, ..dn })
        } else if key == bytes_of("OU"@) {
            Ok(DnModel { org_unit: val, ..dn })
        } else {
            Err(CertError::InvalidSubject)
        }
    }
}

/// Apply the `/`-separated segments starting at `i`.
pub open spec fn spec_apply_segments(s: Seq<u8>, i: int, dn: DnModel) -> Result<DnModel, CertError>
    decreases s.len() - i,
    when 0 <= i
    via spec_apply_segments_dec
{
    if i >= s.len() {
        Ok(dn)
    } else {
        let e = find_byte(s, i, 47);
        match spec_apply_kv(s.subrange(i, e), dn) {
            Err(err) => Err(err),
            Ok(dn2) => if e >= s.len() {
                Ok(dn2)
            } else {
                spec_apply_segments(s, e + 1, dn2)
            },
        }
    }
}

#[via_fn]
proof fn spec_apply_segments_dec(s: Seq<u8>, i: int, dn: DnModel) {
    if i < s.len() {
        lemma_find_byte(s, i, 47);
    }
}

/// Parse a subject string: it must start with `/`, and every segment must be
/// `KEY=VALUE` with a known key. Fields not named keep the generic default.
pub open spec fn spec_parse_dn(s: Seq<u8>) -> Result<DnModel, CertError> {
    if s.len() == 0 || s[0] != 47 {
        Err(CertError::InvalidSubject)
    } else {
        spec_apply_segments(s, 1, spec_default_dn())
    }
}

impl DistinguishedName {
    /// The generic Cages subject.
    pub fn generic() -> (r: DistinguishedName)
        ensures
            r@ == spec_default_dn(),
    {
        proof {
            reveal_strlit("cages.evervault.com");
            reveal_strlit("IE");
            reveal_strlit("LEI");
            reveal_strlit("DUB");
            reveal_strlit("Evervault");
            reveal_strlit("Eng");
        }
        DistinguishedName {
            common_name: lit("cages.evervault.com"),
            country: lit("IE"),
            state: lit("LEI"),
            locality: lit("DUB"),
            org: lit("Evervault"),
            org_unit: lit("Eng"),
        }
    }
}

impl Default for DistinguishedName {
    fn default() -> (r: DistinguishedName)
        ensures
            r@ == spec_default_dn(),
    {
        DistinguishedName::generic()
    }
}

fn apply_kv(seg: &Vec<u8>, dn: DistinguishedName) -> (r: Result<DistinguishedName, CertError>)
    ensures
        match (r, spec_apply_kv(seg@, dn@)) {
            (Ok(d), Ok(m)) => d@ == m,
            (Err(e1), Err(e2)) => e1 == e2,
            _ => false,
        },
{
    proof {
        lemma_find_byte(seg@, 0, 61);
    }
    let q = find_byte_exec(seg.as_slice(), 0, 61);
    if q == seg.len() {
        return Err(CertError::InvalidSubject);
    }
    let key = sub_vec(seg.as_slice(), 0, q);
    let val = sub_vec(seg.as_slice(), q + 1, seg.len());
    proof {
        reveal_strlit("CN");
        reveal_strlit("C");
        reveal_strlit("ST");
        reveal_strlit("L");
        reveal_strlit("O");
        reveal_strlit("OU");
    }
    if eq_key(&key, "CN") {
        Ok(DistinguishedName { common_name: val, ..dn })
    } else if eq_key(&key, "C") {
        Ok(DistinguishedName { country: val, ..dn })
    } else if eq_key(&key, "ST") {
        Ok(DistinguishedName { state: val, ..dn })
    } else if eq_key(&key, "L") {
        Ok(DistinguishedName { locality: val, ..dn })
    } else if eq_key(&key, "O") {
        Ok(DistinguishedName { org: val, ..dn })
    } else if eq_key(&key, "OU") {
        Ok(DistinguishedName { org_unit: val, ..dn })
    } else {
        Err(CertError::InvalidSubject)
    }
}

fn eq_key(v: &Vec<u8>, s: &str) -> (r: bool)
    requires
        s.is_ascii(),
    ensures
        r == (v@ == bytes_of(s@)),
{
    let l = lit(s);
    bytes_eq(v.as_slice(), l.as_slice())
}

fn parse_dn_bytes(s: &Vec<u8>) -> (r: Result<DistinguishedName, CertError>)
    ensures
        match (r, spec_parse_dn(s@)) {
            (Ok(d), Ok(m)) => d@ == m,
            (Err(e1), Err(e2)) => e1 == e2,
            _ => false,
        },
{
    if s.len() == 0 || s[0] != 47 {
        return Err(CertError::InvalidSubject);
    }
    let mut dn = DistinguishedName::generic();
    let mut pos: usize = 1;
    loop
        invariant
            1 <= pos,
            s@.len() > 0,
            s@[0] == 47,
            spec_apply_segments(s@, 1, spec_default_dn()) == spec_apply_segments(
                s@,
                pos as int,
                dn@,
            ),
        decreases s@.len() - pos,
    {
        if pos >= s.len() {
            proof {
                assert(spec_apply_segments(s@, pos as int, dn@) == Ok::<DnModel, CertError>(dn@));
                assert(s@.len() > 0 && s@[0] == 47);
                assert(spec_parse_dn(s@) == spec_apply_segments(s@, 1, spec_default_dn()));
                assert(spec_parse_dn(s@) == Ok::<DnModel, CertError>(dn@));
            }
            return Ok(dn);
        }
        proof {
            lemma_find_byte(s@, pos as int, 47);
        }
        let e = find_byte_exec(s.as_slice(), pos, 47);
        let seg = sub_vec(s.as_slice(), pos, e);
        match apply_kv(&seg, dn) {
            Err(err) => {
                return Err(err);
            },
            Ok(dn2) => {
                proof {
                    assert(seg@ == s@.subrange(pos as int, e as int));
                    assert(spec_apply_kv(s@.subrange(pos as int, e as int), dn@) == Ok::<
                        DnModel,
                        CertError,
                    >(dn2@));
                }
                if e == s.len() {
                    proof {
                        assert(spec_apply_segments(s@, pos as int, dn@) == Ok::<
                            DnModel,
                            CertError,
                        >(dn2@));
                    }
                    return Ok(dn2);
                }
                proof {
                    assert(spec_apply_segments(s@, pos as int, dn@) == spec_apply_segments(
                        s@,
                        e + 1,
                        dn2@,
                    ));
                }
                dn = dn2;
                pos = e + 1;
            },
        }
    }
}

/// Resolve the subject for a new signing certificate: parse the given
/// subject string, or fall back to the generic Cages subject.
pub fn try_resolve_distinguished_name(subj: Option<&str>) -> (r: Result<
    DistinguishedName,
    CertError,
>)
    ensures
        match subj {
            Option::None => r matches Ok(d) && d@ == spec_default_dn(),
            Option::Some(s) => match (r, spec_parse_dn(s.spec_bytes())) {
                (Ok(d), Ok(m)) => d@ == m,
                (Err(e1), Err(e2)) => e1 == e2,
                _ => false,
            },
        },
{
    match subj {
        None => Ok(DistinguishedName::generic()),
        Some(s) => {
            let bytes = s.as_bytes_vec();
            parse_dn_bytes(&bytes)
        },
    }
}

} // verus!
