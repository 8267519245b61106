//! The cage configuration written to the project's configuration file, and
//! the conversion from the `init` command's arguments. Persisting the file
//! itself is plumbing outside the library.
use vstd::prelude::*;

use vstd::string::StrSliceExecFns;

verus! {

pub struct EgressSettings {
    pub enabled: bool,
    pub destinations: Option<Vec<String>>,
}

pub struct SigningInfo {
    pub cert: Option<String>,
    pub key: Option<String>,
}

/// The persisted cage configuration.
pub struct CageConfig {
    pub name: String,
    pub uuid: Option<String>,
    pub app_uuid: Option<String>,
    pub team_uuid: Option<String>,
    pub debug: bool,
    pub egress: EgressSettings,
    pub dockerfile: String,
    pub signing: Option<SigningInfo>,
    pub attestation: Option<Vec<u8>>,
    pub disable_tls_termination: bool,
}

pub open spec fn opt_str_view(o: Option<String>) -> Option<Seq<char>> {
    match o {
        Option::None => Option::None,
        Option::Some(s) => Option::Some(s@),
    }
}

/// Arguments of the `init` command, as plain values.
#[derive(Debug)]
pub struct InitArgs {
    pub output_dir: String,
    pub cage_name: String,
    pub debug: bool,
    pub egress: bool,
    pub dockerfile: Option<String>,
    pub cert_path: Option<String>,
    pub key_path: Option<String>,
    pub disable_tls_termination: bool,
}

impl InitArgs {
    /// The initial configuration these arguments describe: signing info only
    /// when a cert or key path was given, the default Dockerfile name when
    /// none was named, and no cage identifiers yet.
    pub fn into_config(self) -> (c: CageConfig)
        ensures
            c.name@ == self.cage_name@,
            c.uuid is None,
            c.app_uuid is None,
            c.team_uuid is None,
            c.debug == self.debug,
            c.egress.enabled == self.egress,
            c.egress.destinations is None,
            match self.dockerfile {
                Option::Some(d) => c.dockerfile@ == d@,
                Option::None => c.dockerfile@ == "Dockerfile"@,
            },
            self.cert_path is None && self.key_path is None ==> c.signing is None,
            !(self.cert_path is None && self.key_path is None) ==> (c.signing matches Some(si)
                && opt_str_view(si.cert) == opt_str_view(self.cert_path) && opt_str_view(si.key)
                == opt_str_view(self.key_path)),
            c.attestation is None,
            c.disable_tls_termination == self.disable_tls_termination,
    {
        let signing = if self.cert_path.is_none() && self.key_path.is_none() {
            None
        } else {
            Some(SigningInfo { cert: self.cert_path, key: self.key_path })
        };
        let dockerfile = match self.dockerfile {
            Some(d) => d,
            None => default_dockerfile(),
        };
        CageConfig {
            name: self.cage_name,
            uuid: None,
            app_uuid: None,
            team_uuid: None,
            debug: self.debug,
            egress: EgressSettings { enabled: self.egress, destinations: None },
            dockerfile,
            signing,
            attestation: None,
            disable_tls_termination: self.disable_tls_termination,
        }
    }
}

/// The Dockerfile name used when the arguments name none.
pub fn default_dockerfile() -> (r: String)
    ensures
        r@ == "Dockerfile"@,
{
    "Dockerfile".to_owned()
}

} // verus!
