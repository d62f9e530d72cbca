use mca_parser::error::{McaParseError, TagError};

#[test]
fn error_messages() {
    assert_eq!(McaParseError::EndOfData.message(), "Hit end of data");
    assert_eq!(
        McaParseError::InvalidWorld.message(),
        "Specified world directory is not a valid minecraft world"
    );
    assert_eq!(McaParseError::WorldLoadError.message(), "Error loading world");
    assert_eq!(
        McaParseError::NbtParseError(TagError::NotFound).message(),
        "Failed parsing NBT: tag not found"
    );
    assert_eq!(
        McaParseError::NbtParseError(TagError::WrongType).message(),
        "Failed parsing NBT: tag has another type"
    );
    assert_eq!(
        McaParseError::NbtParseError(TagError::InvalidValue).message(),
        "Failed parsing NBT: tag value out of range"
    );
    assert_eq!(
        McaParseError::NbtParseError(TagError::Malformed).message(),
        "Failed parsing NBT: malformed tag data"
    );
    assert_eq!(McaParseError::UnsupportedCompression(7).message(), "Unsupported compression type");
    assert_eq!(TagError::Malformed.message(), "malformed tag data");
}

#[test]
fn errors_compare_by_value() {
    assert_eq!(McaParseError::UnsupportedCompression(4), McaParseError::UnsupportedCompression(4));
    assert_ne!(McaParseError::UnsupportedCompression(4), McaParseError::UnsupportedCompression(5));
    assert_ne!(
        McaParseError::NbtParseError(TagError::NotFound),
        McaParseError::NbtParseError(TagError::WrongType)
    );
    assert_ne!(McaParseError::EndOfData, McaParseError::InvalidWorld);
}
