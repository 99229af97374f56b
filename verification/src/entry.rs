//! The data carried through the catalog and profile subsystems.
use vstd::prelude::*;

verus! {

/// One catalog record, with the fields the query engine reads: display name,
/// qualified `Namespace-Name`, download count of the newest version, rating
/// score, and last-update timestamp. Fields missing from a chunk record
/// default to empty or zero when the record is decoded.
pub struct CatalogEntry {
    pub name: String,
    pub full_name: String,
    pub downloads: u64,
    pub rating: i64,
    pub date_updated: String,
}

impl Clone for CatalogEntry {
    /// An exact copy of the record.
    fn clone(&self) -> (res: Self)
        ensures
            res == *self,
    {
        CatalogEntry {
            name: self.name.clone(),
            full_name: self.full_name.clone(),
            downloads: self.downloads,
            rating: self.rating,
            date_updated: self.date_updated.clone(),
        }
    }
}

/// One installed mod of a profile.
pub struct Mod {
    pub name: String,
    pub version: String,
    pub enabled: bool,
}

/// A named set of installed mods.
pub struct Profile {
    pub id: String,
    pub name: String,
    pub mods: Vec<Mod>,
}

/// A file-dialog filter: a label and the extensions it admits.
pub struct FileFilter {
    pub name: String,
    pub extensions: Vec<String>,
}

/// Copies each record of `v`.
pub fn clone_entries(v: &Vec<CatalogEntry>) -> (r: Vec<CatalogEntry>)
    ensures
        r@ == v@,
{
    let mut out: Vec<CatalogEntry> = Vec::new();
    let mut i: usize = 0;
    while i < v.len()
        invariant
            0 <= i <= v@.len(),
            out@ =~= v@.subrange(0, i as int),
        decreases v@.len() - i,
    {
        out.push(v[i].clone());
        i += 1;
    }
    proof {
        assert(v@.subrange(0, v@.len() as int) =~= v@);
    }
    out
}

} // verus!
