//! The programs that are linked into the kernel.
use crate::easy_fs::bytes::same_bytes;
use vstd::prelude::*;

verus! {

/// A program: its name, and the ELF file.
pub struct App {
    pub name: Vec<u8>,
    pub data: Vec<u8>,
}

/// All programs.
pub struct AppTable {
    pub apps: Vec<App>,
}

/// The first program with the name, from place `i` on.
pub open spec fn app_at(apps: Seq<App>, name: Seq<u8>, i: int) -> Option<int>
    decreases apps.len() - i,
{
    if i >= apps.len() {
        None
    } else if apps[i].name@ == name {
        Some(i)
    } else {
        app_at(apps, name, i + 1)
    }
}

impl AppTable {
    /// The file of the program with the name, if there is one.
    pub open spec fn find(&self, name: Seq<u8>) -> Option<Seq<u8>> {
        match app_at(self.apps@, name, 0) {
            Some(i) => Some(self.apps@[i].data@),
            None => None,
        }
    }

    /// The file of the program with the name, if there is one.
    pub fn get_app_data_by_name(&self, name: &[u8]) -> (r: Option<&[u8]>)
        ensures
            match r {
                Some(d) => self.find(name@) == Some(d@),
                None => self.find(name@) is None,
            },
    {
        let mut i: usize = 0;
        while i < self.apps.len()
            invariant
                i <= self.apps@.len(),
                app_at(self.apps@, name@, 0) == app_at(self.apps@, name@, i as int),
            decreases self.apps@.len() - i,
        {
            if same_bytes(self.apps[i].name.as_slice(), name) {
                return Some(self.apps[i].data.as_slice());
            }
            i += 1;
        }
        None
    }
}

} // verus!
