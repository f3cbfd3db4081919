use vstd::prelude::*;

verus! {

/// The ways in which reading or validating a message can fail.
#[derive(Debug, Clone, Copy)]
pub enum FixSerializeError {
    /// Tag 8 is absent.
    VersionTagNotFound,
    /// Tag 35 is absent.
    MessageTypeTagNotFound,
    /// Tag 10 is absent although validation was asked for.
    CheckSumTagNotFound,
    /// The checksum computed from the message differs from the one it carries.
    InvalidCheckSum,
    /// The buffer ends in the middle of a field.
    FixDelimiterNotFound,
    /// Tag 9 is absent.
    BodyLenTagNotFound,
}

impl FixSerializeError {
    /// True for `VersionTagNotFound`.
    pub fn is_version_tag_not_found(&self) -> (r: bool)
        ensures
            r == (*self is VersionTagNotFound),
    {
        match self {
            Self::VersionTagNotFound => true,
            _ => false,
        }
    }

    /// True for `MessageTypeTagNotFound`.
    pub fn is_message_type_tag_not_found(&self) -> (r: bool)
        ensures
            r == (*self is MessageTypeTagNotFound),
    {
        match self {
            Self::MessageTypeTagNotFound => true,
            _ => false,
        }
    }

    /// True for `CheckSumTagNotFound`.
    pub fn is_check_sum_tag_not_found(&self) -> (r: bool)
        ensures
            r == (*self is CheckSumTagNotFound),
    {
        match self {
            Self::CheckSumTagNotFound => true,
            _ => false,
        }
    }

    /// True for `InvalidCheckSum`.
    pub fn is_invalid_check_sum(&self) -> (r: bool)
        ensures
            r == (*self is InvalidCheckSum),
    {
        match self {
            Self::InvalidCheckSum => true,
            _ => false,
        }
    }
}

} // verus!
