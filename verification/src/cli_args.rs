//! The command-line surface as plain data: the argument types of the cert,
//! describe and env commands. Flag parsing, terminal detection and command
//! dispatch are plumbing outside the library; it hands these values in.
use vstd::prelude::*;

verus! {

/// Arguments of the cert command.
#[derive(Debug)]
pub struct CertArgs {
    pub action: CertCommands,
}

#[derive(Debug)]
pub enum CertCommands {
    New(NewCertArgs),
    Upload(UploadCertArgs),
    Lock(LockCertArgs),
}

/// Arguments for creating a new signing certificate.
#[derive(Debug)]
pub struct NewCertArgs {
    pub output_dir: String,
    pub subject: Option<String>,
}

/// Arguments for uploading a signing certificate's metadata.
#[derive(Debug)]
pub struct UploadCertArgs {
    pub cert_path: Option<String>,
    pub name: String,
    pub config: String,
}

/// Arguments for locking a cage to its signing certificates.
#[derive(Debug)]
pub struct LockCertArgs {
    pub config: String,
}

/// Arguments of the describe command.
#[derive(Debug)]
pub struct DescribeArgs {
    pub eif_path: String,
}

/// The elliptic curves an environment secret can be encrypted under.
#[derive(Clone, Copy, PartialEq, Eq, Structural, Debug)]
pub enum CurveName {
    Nist,
    Koblitz,
}

#[derive(Clone, Copy, PartialEq, Eq, Structural, Debug)]
pub enum EnvAction {
    Add,
    Delete,
    Get,
}

/// Arguments of the env command.
#[derive(Debug)]
pub struct EnvArgs {
    pub action: EnvCommands,
}

#[derive(Debug)]
pub enum EnvCommands {
    Add(AddEnvArgs),
    Delete(DeleteEnvArgs),
    Get(GetEnvArgs),
}

/// Arguments for adding a secret to the cage environment.
#[derive(Debug)]
pub struct AddEnvArgs {
    pub name: String,
    pub secret: String,
    pub skip_encryption: bool,
    pub curve: CurveName,
    pub config: String,
}

/// Arguments for deleting a secret from the cage environment.
#[derive(Debug)]
pub struct DeleteEnvArgs {
    pub name: String,
    pub config: String,
}

/// Arguments for reading the cage environment.
#[derive(Debug)]
pub struct GetEnvArgs {
    pub config: String,
}

} // verus!
