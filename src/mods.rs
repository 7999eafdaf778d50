//! Entries of the mod index that archives are fetched from.
use vstd::prelude::*;
use crate::tree::same_text;

verus! {

/// One downloadable file of a mod.
#[derive(Debug)]
pub struct FileDetails {
    pub url: String,
    pub created_date: u64,
}

/// One mod of the index.
#[derive(Debug)]
pub struct ModDetail {
    pub name: String,
    pub gamebanana_id: u64,
    pub files: Vec<FileDetails>,
    pub category_name: String,
}

/// `files[i]` is the newest file, and the last one of the newest if several
/// share its date.
pub open spec fn is_latest(files: Seq<FileDetails>, i: int) -> bool {
    &&& 0 <= i < files.len()
    &&& forall|j: int| 0 <= j < files.len() ==> files[j].created_date <= files[i].created_date
    &&& forall|j: int| i < j < files.len() ==> files[j].created_date < files[i].created_date
}

/// The newest file of a mod, or `None` when it has none.
pub fn latest_file(files: &Vec<FileDetails>) -> (r: Option<&FileDetails>)
    ensures
        match r {
            None => files@.len() == 0,
            Some(f) => exists|i: int| is_latest(files@, i) && files@[i] == *f,
        },
{
    if files.len() == 0 {
        return None;
    }
    let mut best: usize = 0;
    let mut i: usize = 1;
    while i < files.len()
        invariant
            1 <= i <= files.len(),
            best < i,
            forall|j: int| 0 <= j < i ==> files@[j].created_date <= files@[best as int].created_date,
            forall|j: int| best < j < i ==> files@[j].created_date < files@[best as int].created_date,
        decreases files.len() - i,
    {
        if files[i].created_date >= files[best].created_date {
            best = i;
        }
        i = i + 1;
    }
    assert(is_latest(files@, best as int));
    Some(&files[best])
}

/// Whether a mod belongs to the "Maps" category, whose archives hold level files.
pub fn is_map_mod(mod_detail: &ModDetail) -> (r: bool)
    ensures
        r == (mod_detail.category_name@ == "Maps"@),
{
    same_text(mod_detail.category_name.as_str(), "Maps")
}

} // verus!
