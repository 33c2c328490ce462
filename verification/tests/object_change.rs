use consensus_core::object_change::{
    IDOperation, NativeObjectChange, ObjectChange, ObjectID, ObjectLookupKey, SequenceNumber,
};

fn change(
    input_version: Option<u64>,
    output_version: Option<u64>,
    id_operation: IDOperation,
) -> ObjectChange {
    ObjectChange {
        native: NativeObjectChange {
            id: ObjectID([9; 32]),
            input_version: input_version.map(SequenceNumber),
            output_version: output_version.map(SequenceNumber),
            id_operation,
        },
        checkpoint_viewed_at: 77,
    }
}

#[test]
fn test_object_change_address_is_the_object_id() {
    assert_eq!(change(None, None, IDOperation::Unchanged).address().0, [9; 32]);
}

#[test]
fn test_object_change_looks_up_the_versions_it_has() {
    let created = change(None, Some(5), IDOperation::Created);
    assert!(created.input_state().is_none());
    let (address, key) = created.output_state().unwrap();
    assert_eq!(address.0, [9; 32]);
    assert_eq!(
        key,
        ObjectLookupKey::VersionAt {
            version: 5,
            checkpoint_viewed_at: 77
        }
    );

    let deleted = change(Some(4), None, IDOperation::Deleted);
    assert!(deleted.output_state().is_none());
    let (address, key) = deleted.input_state().unwrap();
    assert_eq!(address.0, [9; 32]);
    assert_eq!(
        key,
        ObjectLookupKey::VersionAt {
            version: 4,
            checkpoint_viewed_at: 77
        }
    );
}

#[test]
fn test_object_change_tells_created_from_deleted() {
    let created = change(None, Some(5), IDOperation::Created);
    assert_eq!(created.id_created(), Some(true));
    assert_eq!(created.id_deleted(), Some(false));
    let deleted = change(Some(4), None, IDOperation::Deleted);
    assert_eq!(deleted.id_created(), Some(false));
    assert_eq!(deleted.id_deleted(), Some(true));
    let mutated = change(Some(4), Some(5), IDOperation::Unchanged);
    assert_eq!(mutated.id_created(), Some(false));
    assert_eq!(mutated.id_deleted(), Some(false));
}
