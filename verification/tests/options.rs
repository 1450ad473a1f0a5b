use memtable::comparator::{InternalKeyComparator, KeyComparator};
use memtable::options::{
    BlockBasedTableFactory, ColumnFamilyDescriptor, ColumnFamilyOptions, DBOptions,
    ImmutableDBOptions, TableFactory,
};
use std::sync::Arc;

fn options(write_buffer_size: usize, max_write_buffer_number: usize) -> ColumnFamilyOptions {
    ColumnFamilyOptions {
        write_buffer_size,
        max_write_buffer_number,
        factory: Arc::new(BlockBasedTableFactory::default()),
        comparator: InternalKeyComparator::default(),
    }
}

#[test]
fn column_family_defaults() {
    let o = ColumnFamilyOptions::default();
    assert_eq!(o.write_buffer_size, 4194304);
    assert_eq!(o.max_write_buffer_number, 1);
    assert_eq!(o.factory.name(), BlockBasedTableFactory::default().name());
    assert_eq!(o.comparator.name(), InternalKeyComparator::default().name());
}

#[test]
fn column_family_options_compare_by_value_and_name() {
    let a = options(1, 2);
    assert!(a == a.clone());
    assert!(a == options(1, 2));
    assert!(a != options(3, 2));
    assert!(a != options(1, 3) && options(1, 3) != a);
    assert!(options(4194304, 1) == ColumnFamilyOptions::default());
}

#[test]
fn database_defaults() {
    let o = DBOptions::default();
    assert_eq!(o.max_manifest_file_size, 0);
    assert!(!o.create_if_missing);
    assert!(!o.create_missing_column_families);
    assert_eq!(o.db_path, "db");
    assert_eq!(o.db_name, "db");
    assert_eq!(o.max_background_jobs, 0);
}

#[test]
fn immutable_options_leave_the_path_empty() {
    let o = DBOptions {
        max_manifest_file_size: 7,
        create_if_missing: true,
        create_missing_column_families: true,
        fs: Arc::new(42u32),
        db_path: String::from("somewhere"),
        db_name: String::from("name"),
        max_background_jobs: 3,
    };
    let fs = o.fs.clone();
    let copy = o.clone();
    assert_eq!(copy.db_path, "somewhere");
    assert_eq!(copy.db_name, "name");
    let i = ImmutableDBOptions::from(o);
    assert_eq!(i.max_manifest_file_size, 7);
    assert_eq!(i.db_path, "");
    assert_eq!(i.max_background_jobs, 3);
    assert!(Arc::ptr_eq(&i.fs, &fs));
}

#[test]
fn options_carry_a_factory_behind_its_trait() {
    let o: ColumnFamilyOptions<dyn TableFactory> = ColumnFamilyOptions {
        write_buffer_size: 1,
        max_write_buffer_number: 1,
        factory: Arc::new(BlockBasedTableFactory::default()),
        comparator: InternalKeyComparator::default(),
    };
    let d = ColumnFamilyDescriptor { name: String::from("cf"), options: o.clone() };
    assert_eq!(d.name, "cf");
    assert!(d.options == o);
}
