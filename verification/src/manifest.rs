//! Checks of a model pack manifest: its header and its license section.
use vstd::prelude::*;

verus! {

/// What is wrong with a manifest.
#[derive(Debug, Clone, Copy, PartialEq, Eq, Structural)]
pub enum ManifestProblem {
    /// The schema is not 1.
    UnsupportedSchema(u32),
    /// The pack id is empty.
    MissingId,
    /// There is no license section.
    MissingLicense,
    /// The SPDX identifier is empty.
    MissingSpdx,
    /// No license file is listed.
    MissingLicenseFiles,
    /// The upstream entry is absent or null.
    MissingUpstream,
    /// The listed license file at this position is not a file on disk.
    MissingLicenseFile(usize),
    /// The listed license file at this position is empty.
    EmptyLicenseFile(usize),
}

/// What the disk holds at a listed license file's path.
#[derive(Debug, Clone, Copy, PartialEq, Eq, Structural)]
pub enum LicenseFileState {
    /// No regular file.
    Missing,
    /// A regular file of this many bytes.
    File(u64),
}

/// The license section of a manifest, as far as the checks read it: the SPDX
/// identifier, the listed files, and whether the upstream entry is present (not
/// null).
#[derive(Debug, Clone)]
pub struct LicenseFields {
    pub spdx: String,
    pub files: Vec<String>,
    pub upstream_present: bool,
}

/// A manifest header is accepted when its schema is 1 and its id is not empty.
pub fn check_header(schema: u32, id: &str) -> (r: Result<(), ManifestProblem>)
    ensures
        schema != 1 ==> r == Err::<(), ManifestProblem>(ManifestProblem::UnsupportedSchema(schema)),
        schema == 1 && id@.len() == 0 ==> r == Err::<(), ManifestProblem>(ManifestProblem::MissingId),
        schema == 1 && id@.len() > 0 ==> r == Ok::<(), ManifestProblem>(()),
{
    if schema != 1 {
        return Err(ManifestProblem::UnsupportedSchema(schema));
    }
    if id.unicode_len() == 0 {
        return Err(ManifestProblem::MissingId);
    }
    Ok(())
}

/// The first problem of a license section, in the order: no section, empty SPDX
/// identifier, no files, no upstream entry.
pub open spec fn spec_license_problem(license: Option<LicenseFields>) -> Option<ManifestProblem> {
    match license {
        None => Some(ManifestProblem::MissingLicense),
        Some(l) => if l.spdx@.len() == 0 {
            Some(ManifestProblem::MissingSpdx)
        } else if l.files@.len() == 0 {
            Some(ManifestProblem::MissingLicenseFiles)
        } else if !l.upstream_present {
            Some(ManifestProblem::MissingUpstream)
        } else {
            None
        },
    }
}

/// Checks the fields of a license section (the listed files are then checked on
/// disk, one by one).
pub fn check_license_fields(license: &Option<LicenseFields>) -> (r: Result<(), ManifestProblem>)
    ensures
        match spec_license_problem(*license) {
            Some(p) => r == Err::<(), ManifestProblem>(p),
            None => r == Ok::<(), ManifestProblem>(()),
        },
{
    match license {
        None => Err(ManifestProblem::MissingLicense),
        Some(l) => {
            if l.spdx.as_str().unicode_len() == 0 {
                Err(ManifestProblem::MissingSpdx)
            } else if l.files.len() == 0 {
                Err(ManifestProblem::MissingLicenseFiles)
            } else if !l.upstream_present {
                Err(ManifestProblem::MissingUpstream)
            } else {
                Ok(())
            }
        },
    }
}

/// A listed license file is a non-empty regular file.
pub open spec fn license_file_ok(s: LicenseFileState) -> bool {
    s matches LicenseFileState::File(n) && n > 0
}

/// Checks the listed license files in order, given what the disk holds at each:
/// the first one that is missing or empty is reported.
pub fn check_license_files(states: &Vec<LicenseFileState>) -> (r: Result<(), ManifestProblem>)
    ensures
        match r {
            Ok(()) => forall|i: int| 0 <= i < states@.len() ==> license_file_ok(#[trigger] states@[i]),
            Err(ManifestProblem::MissingLicenseFile(i)) => {
                &&& i < states@.len()
                &&& states@[i as int] == LicenseFileState::Missing
                &&& forall|j: int| 0 <= j < i ==> license_file_ok(#[trigger] states@[j])
            },
            Err(ManifestProblem::EmptyLicenseFile(i)) => {
                &&& i < states@.len()
                &&& states@[i as int] == LicenseFileState::File(0)
                &&& forall|j: int| 0 <= j < i ==> license_file_ok(#[trigger] states@[j])
            },
            Err(_) => false,
        },
{
    let mut i: usize = 0;
    while i < states.len()
        invariant
            i <= states@.len(),
            forall|j: int| 0 <= j < i ==> license_file_ok(#[trigger] states@[j]),
        decreases states@.len() - i,
    {
        match states[i] {
            LicenseFileState::Missing => {
                return Err(ManifestProblem::MissingLicenseFile(i));
            },
            LicenseFileState::File(n) => {
                if n == 0 {
                    return Err(ManifestProblem::EmptyLicenseFile(i));
                }
            },
        }
        i = i + 1;
    }
    Ok(())
}

} // verus!
