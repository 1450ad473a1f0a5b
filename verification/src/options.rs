//! The options of a database and of its column families.
//!
//! The options carry a file system and a table factory by reference count and
//! look no further into them than a name.

use crate::comparator::{InternalKeyComparator, KeyComparator};
use std::sync::Arc;
use vstd::prelude::*;

verus! {

/// Makes tables; has a name by which two factories are told apart.
pub trait TableFactory {
    /// The name of the factory.
    spec fn name_view(&self) -> Seq<char>;

    /// The name of the factory.
    fn name(&self) -> (r: &'static str)
        ensures
            r@ == self.name_view(),
    ;
}

/// The factory of tables that are made of blocks.
#[derive(Clone, Copy, Debug)]
pub struct BlockBasedTableFactory {}

impl Default for BlockBasedTableFactory {
    fn default() -> Self {
        BlockBasedTableFactory {  }
    }
}

impl TableFactory for BlockBasedTableFactory {
    open spec fn name_view(&self) -> Seq<char> {
        "BlockBasedTable"@
    }

    fn name(&self) -> (r: &'static str) {
        "BlockBasedTable"
    }
}

/// The file system of the operating system, used synchronously.
#[derive(Clone, Copy, Debug)]
pub struct SyncPoxisFileSystem {}

/// The options that stay as they are while a database is open.
pub struct ImmutableDBOptions<S: ?Sized = SyncPoxisFileSystem> {
    pub max_manifest_file_size: usize,
    pub db_path: String,
    pub fs: Arc<S>,
    pub max_background_jobs: usize,
}

/// The options of a column family.
pub struct ColumnFamilyOptions<F: TableFactory + ?Sized = BlockBasedTableFactory> {
    pub write_buffer_size: usize,
    pub max_write_buffer_number: usize,
    pub factory: Arc<F>,
    pub comparator: InternalKeyComparator,
}

impl<F: TableFactory + ?Sized> Clone for ColumnFamilyOptions<F> {
    fn clone(&self) -> (r: Self)
        ensures
            r == *self,
    {
        ColumnFamilyOptions {
            write_buffer_size: self.write_buffer_size,
            max_write_buffer_number: self.max_write_buffer_number,
            factory: self.factory.clone(),
            comparator: self.comparator,
        }
    }
}

impl<F: TableFactory + ?Sized> PartialEq for ColumnFamilyOptions<F> {
    /// Factories and comparators count as equal if their names are.
    fn eq(&self, other: &Self) -> (r: bool) {
        self.write_buffer_size == other.write_buffer_size && self.max_write_buffer_number
            == other.max_write_buffer_number && self.factory.name().to_owned()
            == other.factory.name().to_owned() && self.comparator.name().to_owned()
            == other.comparator.name().to_owned()
    }
}

impl<F: TableFactory + ?Sized> vstd::std_specs::cmp::PartialEqSpecImpl for ColumnFamilyOptions<F> {
    open spec fn obeys_eq_spec() -> bool {
        true
    }

    open spec fn eq_spec(&self, other: &Self) -> bool {
        &&& self.write_buffer_size == other.write_buffer_size
        &&& self.max_write_buffer_number == other.max_write_buffer_number
        &&& self.factory.name_view() == other.factory.name_view()
        &&& self.comparator.name_view() == other.comparator.name_view()
    }
}

impl<F: TableFactory + ?Sized> Eq for ColumnFamilyOptions<F> {

}

impl Default for ColumnFamilyOptions {
    /// Four mebibytes of one write buffer, block-based tables, internal keys.
    fn default() -> (r: Self)
        ensures
            r.write_buffer_size == 4 * 1024 * 1024,
            r.max_write_buffer_number == 1,
            r.factory == Arc::new(BlockBasedTableFactory {  }),
            r.comparator == (InternalKeyComparator {  }),
    {
        assert(4usize << 20 == 4 * 1024 * 1024) by (bit_vector);
        ColumnFamilyOptions {
            write_buffer_size: 4 << 20,
            max_write_buffer_number: 1,
            factory: Arc::new(BlockBasedTableFactory::default()),
            comparator: InternalKeyComparator::default(),
        }
    }
}

/// The options of a database.
pub struct DBOptions<S: ?Sized = SyncPoxisFileSystem> {
    pub max_manifest_file_size: usize,
    pub create_if_missing: bool,
    pub create_missing_column_families: bool,
    pub fs: Arc<S>,
    pub db_path: String,
    pub db_name: String,
    pub max_background_jobs: usize,
}

impl<S: ?Sized> Clone for DBOptions<S> {
    fn clone(&self) -> (r: Self)
        ensures
            r == *self,
    {
        DBOptions {
            max_manifest_file_size: self.max_manifest_file_size,
            create_if_missing: self.create_if_missing,
            create_missing_column_families: self.create_missing_column_families,
            fs: self.fs.clone(),
            db_path: self.db_path.clone(),
            db_name: self.db_name.clone(),
            max_background_jobs: self.max_background_jobs,
        }
    }
}

impl Default for DBOptions {
    fn default() -> (r: Self)
        ensures
            r.max_manifest_file_size == 0,
            !r.create_if_missing,
            !r.create_missing_column_families,
            r.fs == Arc::new(SyncPoxisFileSystem {  }),
            r.db_path@ == "db"@,
            r.db_name@ == "db"@,
            r.max_background_jobs == 0,
    {
        DBOptions {
            max_manifest_file_size: 0,
            create_if_missing: false,
            create_missing_column_families: false,
            fs: Arc::new(SyncPoxisFileSystem {  }),
            db_path: "db".to_string(),
            db_name: "db".to_string(),
            max_background_jobs: 0,
        }
    }
}

/// A column family: its name and its options.
pub struct ColumnFamilyDescriptor<F: TableFactory + ?Sized = BlockBasedTableFactory> {
    pub name: String,
    pub options: ColumnFamilyOptions<F>,
}

impl<S: ?Sized> From<DBOptions<S>> for ImmutableDBOptions<S> {
    /// Takes over what stays as it is. The path is left empty.
    fn from(opt: DBOptions<S>) -> (r: Self)
        ensures
            r.max_manifest_file_size == opt.max_manifest_file_size,
            r.db_path@ == ""@,
            r.fs == opt.fs,
            r.max_background_jobs == opt.max_background_jobs,
    {
        ImmutableDBOptions {
            max_manifest_file_size: opt.max_manifest_file_size,
            db_path: "".to_string(),
            fs: opt.fs.clone(),
            max_background_jobs: opt.max_background_jobs,
        }
    }
}

impl<S: ?Sized> vstd::std_specs::convert::FromSpecImpl<DBOptions<S>> for ImmutableDBOptions<S> {
    open spec fn obeys_from_spec() -> bool {
        false
    }

    open spec fn from_spec(opt: DBOptions<S>) -> Self {
        arbitrary()
    }
}

} // verus!
