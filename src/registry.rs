use vstd::prelude::*;
use crate::table::Table;
use crate::username::{is_valid_username, letters_and_numbers, sanitize_username, sanitized_username};

verus! {

/// Why a drive cannot be provisioned for a caller.
#[derive(Clone, Copy, Debug, PartialEq, Eq, Structural)]
pub enum DriveRequestError {
    /// Anonymous callers only get local drives.
    AnonymousCaller,
    /// The user name is not a run of letters and numbers once sanitized.
    InvalidUsername,
    /// The caller already owns a drive.
    AlreadyHasDrive,
    /// No further drive can be numbered.
    RegistryFull,
}

/// The directory of provisioned drives: one per owner, numbered from 1 in order
/// of provisioning.
pub struct DriveRegistry {
    user_drive_directory: Table<String>,
    drives_directory: Vec<String>,
}

impl DriveRegistry {
    pub closed spec fn wf(&self) -> bool {
        self.user_drive_directory.wf()
    }

    /// Drive of each owner.
    pub closed spec fn owners(&self) -> Map<Seq<char>, String> {
        self.user_drive_directory@
    }

    /// Drives by number: the drive numbered `i` is at position `i - 1`.
    pub closed spec fn drives(&self) -> Seq<String> {
        self.drives_directory@
    }

    pub fn new() -> (r: Self)
        ensures
            r.wf(),
            r.owners().is_empty(),
            r.drives().len() == 0,
    {
        let r = DriveRegistry { user_drive_directory: Table::new(), drives_directory: Vec::new() };
        proof {
            assert(r.user_drive_directory@.dom() =~= Set::empty());
        }
        r
    }

    /// Decides whether `caller` may have a drive made, before any is made; gives
    /// the sanitized user name to install it with.
    pub fn check_create_drive(&self, caller: &String, caller_is_anonymous: bool, username: &String) -> (r: Result<String, DriveRequestError>)
        requires
            self.wf(),
        ensures
            caller_is_anonymous ==> r == Err::<String, DriveRequestError>(DriveRequestError::AnonymousCaller),
            !caller_is_anonymous && !letters_and_numbers(sanitized_username(username@))
                ==> r == Err::<String, DriveRequestError>(DriveRequestError::InvalidUsername),
            !caller_is_anonymous && letters_and_numbers(sanitized_username(username@)) && self.owners().contains_key(caller@)
                ==> r == Err::<String, DriveRequestError>(DriveRequestError::AlreadyHasDrive),
            !caller_is_anonymous && letters_and_numbers(sanitized_username(username@)) && !self.owners().contains_key(caller@)
                ==> (r matches Ok(name) && name@ == sanitized_username(username@)),
    {
        if caller_is_anonymous {
            return Err(DriveRequestError::AnonymousCaller);
        }
        let name = sanitize_username(username.as_str());
        if !is_valid_username(name.as_str()) {
            return Err(DriveRequestError::InvalidUsername);
        }
        if self.user_drive_directory.contains(caller) {
            return Err(DriveRequestError::AlreadyHasDrive);
        }
        Ok(name)
    }

    /// Records the drive made for `caller`, under the next number, and returns it.
    pub fn record_drive(&mut self, caller: String, drive: String) -> (r: Result<u64, DriveRequestError>)
        requires
            old(self).wf(),
        ensures
            final(self).wf(),
            old(self).drives().len() >= u64::MAX ==> r == Err::<u64, DriveRequestError>(DriveRequestError::RegistryFull)
                && *final(self) == *old(self),
            old(self).drives().len() < u64::MAX ==> {
                &&& r == Ok::<u64, DriveRequestError>((old(self).drives().len() + 1) as u64)
                &&& final(self).drives() == old(self).drives().push(drive)
                &&& final(self).owners() == old(self).owners().insert(caller@, drive)
            },
    {
        if self.drives_directory.len() as u64 >= u64::MAX {
            return Err(DriveRequestError::RegistryFull);
        }
        self.drives_directory.push(drive.clone());
        self.user_drive_directory.insert(caller, drive);
        Ok(self.drives_directory.len() as u64)
    }

    pub fn get_user_drive(&self, caller: &String) -> (r: Option<String>)
        requires
            self.wf(),
        ensures
            match r {
                Some(d) => self.owners().contains_key(caller@) && d == self.owners()[caller@],
                None => !self.owners().contains_key(caller@),
            },
    {
        match self.user_drive_directory.get(caller) {
            Some(d) => Some(d.clone()),
            None => None,
        }
    }

    pub fn get_total_drives(&self) -> (r: u64)
        ensures
            r as int == self.drives().len(),
    {
        self.drives_directory.len() as u64
    }

    pub fn get_drive_by_index(&self, index: u64) -> (r: Option<String>)
        ensures
            1 <= index <= self.drives().len() ==> r == Some(self.drives()[index - 1]),
            !(1 <= index <= self.drives().len()) ==> r is None,
    {
        if index >= 1 && index <= self.drives_directory.len() as u64 {
            Some(self.drives_directory[(index - 1) as usize].clone())
        } else {
            None
        }
    }
}

} // verus!
