//! Where downloaded videos are stored: the storage disks, and the choice of
//! one that is mounted.
use vstd::prelude::*;

verus! {

/// Why no storage path could be chosen.
#[derive(Clone, Copy, Debug, PartialEq, Eq, Structural)]
pub enum StorageError {
    /// None of the storage disks is mounted.
    NoStorageAvailable,
}

impl StorageError {
    /// A message for the user.
    pub fn message(&self) -> (r: String)
        ensures
            r@ == "Aucun disque de stockage disponible"@,
    {
        proof {
            reveal_strlit("Aucun disque de stockage disponible");
        }
        "Aucun disque de stockage disponible".to_string()
    }
}

pub open spec fn default_storage_paths() -> Seq<Seq<char>> {
    seq!["/run/mount/ve_stock_1"@, "/run/mount/ve_stock_2"@, "/run/mount/ve_ext_1"@]
}

/// `r` is the choice among `paths` when `available` tells which are
/// mounted: the first mounted one, or an error when none is.
pub open spec fn storage_choice(
    paths: Seq<Seq<char>>,
    available: Seq<bool>,
    r: Result<String, StorageError>,
) -> bool {
    match r {
        Ok(p) => exists|i: int|
            0 <= i < paths.len() && available[i] && p@ == paths[i] && forall|j: int|
                0 <= j < i ==> !available[j],
        Err(e) => e == StorageError::NoStorageAvailable && forall|i: int|
            0 <= i < paths.len() ==> !available[i],
    }
}

/// Knows the storage disks, in order of preference.
pub struct VideoScanner {
    storage_paths: Vec<String>,
}

impl View for VideoScanner {
    type V = Seq<Seq<char>>;

    closed spec fn view(&self) -> Seq<Seq<char>> {
        self.storage_paths@.map_values(|s: String| s@)
    }
}

/// Relies on `std::path::Path::exists`: whether something is at that path
/// when it is asked. Nothing is promised, as that depends on the disk.
#[verifier::external_body]
fn path_exists(p: &String) -> (r: bool) {
    std::path::Path::new(p.as_str()).exists()
}

impl VideoScanner {
    /// The scanner with the usual three storage disks.
    pub fn new() -> (r: VideoScanner)
        ensures
            r@ == default_storage_paths(),
    {
        proof {
            reveal_strlit("/run/mount/ve_stock_1");
            reveal_strlit("/run/mount/ve_stock_2");
            reveal_strlit("/run/mount/ve_ext_1");
        }
        let r = VideoScanner {
            storage_paths: vec![
                "/run/mount/ve_stock_1".to_string(),
                "/run/mount/ve_stock_2".to_string(),
                "/run/mount/ve_ext_1".to_string(),
            ],
        };
        assert(r@ =~= default_storage_paths());
        r
    }

    /// The storage paths, in order of preference.
    pub fn storage_paths(&self) -> (r: Vec<String>)
        ensures
            r@.map_values(|s: String| s@) == self@,
    {
        self.storage_paths.clone()
    }

    /// Given which storage paths are mounted (`available[i]` for the `i`-th),
    /// the first mounted one; an error when none is.
    pub fn pick_storage_path(&self, available: &Vec<bool>) -> (r: Result<String, StorageError>)
        requires
            available@.len() == self@.len(),
        ensures
            storage_choice(self@, available@, r),
    {
        let mut i: usize = 0;
        while i < self.storage_paths.len()
            invariant
                i <= self.storage_paths.len(),
                available@.len() == self@.len() == self.storage_paths@.len(),
                forall|j: int| 0 <= j < i ==> !available@[j],
            decreases self.storage_paths.len() - i,
        {
            if available[i] {
                let p = self.storage_paths[i].clone();
                assert(p@ == self@[i as int]);
                return Ok(p);
            }
            i = i + 1;
        }
        Err(StorageError::NoStorageAvailable)
    }

    /// The first storage path that is mounted now; an error when none is.
    pub fn find_best_storage_path(&self) -> (r: Result<String, StorageError>)
        ensures
            exists|available: Seq<bool>|
                available.len() == self@.len() && #[trigger] storage_choice(self@, available, r),
    {
        let mut available: Vec<bool> = Vec::new();
        let mut i: usize = 0;
        while i < self.storage_paths.len()
            invariant
                i <= self.storage_paths.len(),
                available@.len() == i,
            decreases self.storage_paths.len() - i,
        {
            available.push(path_exists(&self.storage_paths[i]));
            i = i + 1;
        }
        let r = self.pick_storage_path(&available);
        assert(storage_choice(self@, available@, r));
        r
    }
}

} // verus!
