//! The paths that a scan is asked for.

use crate::error::ScanError;
use vstd::prelude::*;

verus! {

/// What was found out about a path to scan, up to the first thing that went wrong.
#[derive(Debug, Clone)]
pub enum Probe {
    /// Nothing is there.
    Missing,
    /// The path could not be resolved.
    Unresolved { cause: String },
    /// The metadata could not be read.
    NoMetadata { cause: String },
    /// The path lies on device `dev`.
    Found { dev: u64 },
}

/// The device of a path that can be scanned, or why it cannot.
pub open spec fn admission(path: String, probe: Probe) -> Result<u64, ScanError> {
    match probe {
        Probe::Missing => Err(ScanError::PathNotFound { path }),
        Probe::Unresolved { cause } => Err(ScanError::Canonicalize { path, cause }),
        Probe::NoMetadata { cause } => Err(ScanError::Metadata { path, cause }),
        Probe::Found { dev } => Ok(dev),
    }
}

/// The device of a path that can be scanned, or why it cannot.
pub fn admit_path(path: &String, probe: &Probe) -> (device: Result<u64, ScanError>)
    ensures
        device == admission(*path, *probe),
{
    match probe {
        Probe::Missing => Err(ScanError::PathNotFound { path: path.clone() }),
        Probe::Unresolved { cause } => Err(
            ScanError::Canonicalize { path: path.clone(), cause: cause.clone() },
        ),
        Probe::NoMetadata { cause } => Err(
            ScanError::Metadata { path: path.clone(), cause: cause.clone() },
        ),
        Probe::Found { dev } => Ok(*dev),
    }
}

/// Whether the next path is looked at after this one.
pub fn goes_on(probe: &Probe) -> (on: bool)
    ensures
        on == (probe is Found),
{
    match probe {
        Probe::Found { .. } => true,
        _ => false,
    }
}

/// Whether `probes` are those of `paths`, of all of them or up to one that cannot be
/// scanned.
pub open spec fn probed_in_order(paths: Seq<String>, probes: Seq<Probe>) -> bool {
    &&& probes.len() <= paths.len()
    &&& probes.len() < paths.len() ==> probes.len() > 0 && !(probes.last() is Found)
}

/// The devices of the paths, in order, where all of them can be scanned; else why the
/// first that cannot be scanned is refused.
pub fn admit_paths(paths: &Vec<String>, probes: &Vec<Probe>) -> (outcome: Result<
    Vec<u64>,
    ScanError,
>)
    requires
        probed_in_order(paths@, probes@),
    ensures
        outcome is Ok <==> forall|k: int| 0 <= k < probes@.len() ==> #[trigger] probes@[k] is Found,
        match outcome {
            Ok(devices) => {
                &&& devices@.len() == paths@.len()
                &&& forall|k: int|
                    0 <= k < paths@.len() ==> #[trigger] probes@[k] == (Probe::Found {
                        dev: devices@[k],
                    })
            },
            Err(error) => exists|k: int|
                0 <= k < probes@.len() && !(#[trigger] probes@[k] is Found) && admission(
                    paths@[k],
                    probes@[k],
                ) == Err::<u64, ScanError>(error) && forall|j: int|
                    0 <= j < k ==> #[trigger] probes@[j] is Found,
        },
{
    let mut devices: Vec<u64> = Vec::new();
    let mut k: usize = 0;
    while k < probes.len()
        invariant
            k <= probes@.len() <= paths@.len(),
            devices@.len() == k,
            forall|j: int|
                0 <= j < k ==> #[trigger] probes@[j] == (Probe::Found { dev: devices@[j] }),
        decreases probes.len() - k,
    {
        match admit_path(&paths[k], &probes[k]) {
            Ok(dev) => {
                devices.push(dev);
            },
            Err(error) => {
                assert(!(probes@[k as int] is Found));
                return Err(error);
            },
        }
        k = k + 1;
    }
    assert(probes@.len() < paths@.len() ==> probes@[probes@.len() - 1] is Found);
    Ok(devices)
}

/// A path is admitted just where its device was found, and then with that device; a refusal
/// tells the path, and the cause where there is one, just as they are.
pub proof fn law_refusals_tell_path_and_cause(path: String, probe: Probe)
    ensures
        forall|device: u64|
            admission(path, probe) == Ok::<u64, ScanError>(device) <==> probe == (Probe::Found {
                dev: device,
            }),
        probe is Missing ==> admission(path, probe) == Err::<u64, ScanError>(
            ScanError::PathNotFound { path },
        ),
        probe matches Probe::Unresolved { cause } ==> admission(path, probe) == Err::<
            u64,
            ScanError,
        >(ScanError::Canonicalize { path, cause }),
        probe matches Probe::NoMetadata { cause } ==> admission(path, probe) == Err::<
            u64,
            ScanError,
        >(ScanError::Metadata { path, cause }),
{
}

} // verus!
