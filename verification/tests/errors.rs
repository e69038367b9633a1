use memkv::{
    EntryAlreadyDeletedInFileError, InvalidDataTypeError, KeyAlreadyExistsError,
    KeyDoesNotExistError, MemKvError, MemmapCreationFailureError, NoSpaceLeftError,
};

#[test]
fn text_of_each_failure() {
    assert_eq!(NoSpaceLeftError.message(), "no space left on page to add value");
    assert_eq!(KeyAlreadyExistsError.message(), "key already exists in page");
    assert_eq!(KeyDoesNotExistError.message(), "key does not exist in page");
    assert_eq!(MemmapCreationFailureError.message(), "failed to create memmap");
    assert_eq!(EntryAlreadyDeletedInFileError.message(), "entry already deleted in file");
    assert_eq!(InvalidDataTypeError.message(), "Invalid data type");
}

#[test]
fn text_of_a_wrapped_failure() {
    assert_eq!(
        MemKvError::NoSpaceLeft(NoSpaceLeftError).message(),
        "no space left on page to add value"
    );
    assert_eq!(
        MemKvError::KeyAlreadyExists(KeyAlreadyExistsError).message(),
        "key already exists in page"
    );
    assert_eq!(
        MemKvError::KeyDoesNotExist(KeyDoesNotExistError).message(),
        "key does not exist in page"
    );
    assert_eq!(
        MemKvError::MemmapCreationFailure(MemmapCreationFailureError).message(),
        "failed to create memmap"
    );
    assert_eq!(
        MemKvError::EntryAlreadyDeletedInFile(EntryAlreadyDeletedInFileError).message(),
        "entry already deleted in file"
    );
    assert_eq!(MemKvError::InvalidDataType(InvalidDataTypeError).message(), "Invalid data type");
}

#[test]
fn failures_compare_by_kind() {
    assert_eq!(
        MemKvError::NoSpaceLeft(NoSpaceLeftError),
        MemKvError::NoSpaceLeft(NoSpaceLeftError.clone())
    );
    assert_ne!(
        MemKvError::NoSpaceLeft(NoSpaceLeftError),
        MemKvError::KeyAlreadyExists(KeyAlreadyExistsError)
    );
    assert_eq!(format!("{:?}", KeyDoesNotExistError), "KeyDoesNotExistError");
}
