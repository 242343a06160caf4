use vstd::prelude::*;

use crate::tree::Disk;

verus! {

/// Why the program cannot go on.
#[derive(Debug, Clone, Copy, PartialEq, Eq, Structural)]
pub enum AppError {
    /// The system reported no volume to scan.
    NoVolumesFound,
}

/// The program's top level.
pub struct App {}

impl App {
    pub fn new() -> App {
        App {}
    }

    /// The volumes to choose from, as the system reported them; having none
    /// at all is an error.
    pub fn setup(&self, disks: Vec<Disk>) -> (r: Result<Vec<Disk>, AppError>)
        ensures
            disks@.len() == 0 <==> r is Err,
            r matches Ok(v) ==> v@ == disks@,
    {
        if disks.len() == 0 {
            Err(AppError::NoVolumesFound)
        } else {
            Ok(disks)
        }
    }
}

} // verus!
