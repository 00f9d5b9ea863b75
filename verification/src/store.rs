//! The disk tier of the entity cache: a run-scoped key/value store in a
//! private temporary file, holding each spilled entity's encoded form under
//! its identifier. The store itself is an outside key/value database; its
//! contents are modeled as a map from keys to token lists, and each method's
//! contract states what the database's source shows.

use vstd::prelude::*;

verus! {

/// A run-scoped on-disk key/value store. The temporary file lives exactly
/// as long as this value and is removed when it is dropped.
#[verifier::external_body]
pub struct DiskStore {
    file: tempfile::NamedTempFile,
    db: pickledb::PickleDb,
}

/// What the store holds: each key's stored token list.
pub uninterp spec fn store_map(s: DiskStore) -> Map<Seq<char>, Seq<Seq<char>>>;

impl DiskStore {
    /// Relies on `tempfile::NamedTempFile::new` (a fresh private file,
    /// removed on drop) and `pickledb::PickleDb::new` (a fresh database is
    /// empty; nothing is read from the path). `None` when the file cannot
    /// be created or its path is not text.
    #[verifier::external_body]
    pub fn new() -> (r: Option<DiskStore>)
        ensures
            r matches Some(s) ==> store_map(s).dom() == Set::<Seq<char>>::empty(),
    {
        let file = tempfile::NamedTempFile::new().ok()?;
        let path = file.path().to_str()?.to_string();
        let db = pickledb::PickleDb::new(
            path,
            pickledb::PickleDbDumpPolicy::AutoDump,
            pickledb::SerializationMethod::Json,
        );
        Some(DiskStore { file, db })
    }

    /// Relies on `pickledb::PickleDb::set`: on success the entry is stored;
    /// on a dump failure its source restores the previous entry, so the
    /// store is unchanged.
    #[verifier::external_body]
    pub fn set(&mut self, key: &str, value: &Vec<String>) -> (r: bool)
        ensures
            r ==> store_map(*final(self)) == store_map(*old(self)).insert(
                key@,
                value.deep_view(),
            ),
            !r ==> store_map(*final(self)) == store_map(*old(self)),
    {
        self.db.set(key, value).is_ok()
    }

    /// Relies on `pickledb::PickleDb::get`: returns the stored value under
    /// the key, deserialized as it was serialized, and `None` for a missing
    /// key.
    #[verifier::external_body]
    pub fn get(&self, key: &str) -> (r: Option<Vec<String>>)
        ensures
            match r {
                Some(v) => store_map(*self).contains_key(key@) && v.deep_view() == store_map(
                    *self,
                )[key@],
                None => !store_map(*self).contains_key(key@),
            },
    {
        self.db.get::<Vec<String>>(key)
    }
}

} // verus!
