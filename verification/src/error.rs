use vstd::prelude::*;

verus! {

/// Declares `std::io::Error` so that it can travel inside [`NewtonError`].
#[verifier::external_type_specification]
#[verifier::external_body]
pub struct ExIoError(std::io::Error);

/// Errors returned while reading or writing a NEWTON resource manifest.
#[derive(Debug)]
pub enum NewtonError {
    Io(std::io::Error),
    InvalidGroupType(u8),
    InvalidResourceType(u8),
    InvalidBoolean { field: &'static str, value: u8 },
    MissingRequiredString { field: &'static str },
    InconsistentPresence { field: &'static str, flag: u8, has_value: bool },
    NegativeValue { field: &'static str, value: i32 },
    IntegerOutOfRange { field: &'static str, value: u32 },
    CountLimitExceeded { field: &'static str, count: usize, limit: usize },
    StringLimitExceeded { length: usize, limit: usize },
    TotalStringLimitExceeded { requested: usize, limit: usize },
    AllocationLimitExceeded { requested: usize, limit: usize },
    AllocationFailed { field: &'static str, source: std::collections::TryReserveError },
    InvalidUtf8 { field: &'static str },
    LengthOverflow { field: &'static str },
    CompositeContainsResources { group: String, resources: usize },
    SimpleContainsSubgroups { group: String, subgroups: usize },
    TrailingData { remaining: usize },
    DecodeContext {
        offset: u64,
        context: String,
        field: &'static str,
        source: Box<NewtonError>,
    },
    SemanticContext { context: String, source: Box<NewtonError> },
}

/// The mathematical model of a [`NewtonError`]: text as character sequences,
/// and the opaque I/O and allocator payloads left out.
pub enum ErrorView {
    Io,
    InvalidGroupType(u8),
    InvalidResourceType(u8),
    InvalidBoolean { field: Seq<char>, value: u8 },
    MissingRequiredString { field: Seq<char> },
    InconsistentPresence { field: Seq<char>, flag: u8, has_value: bool },
    NegativeValue { field: Seq<char>, value: i32 },
    IntegerOutOfRange { field: Seq<char>, value: u32 },
    CountLimitExceeded { field: Seq<char>, count: usize, limit: usize },
    StringLimitExceeded { length: usize, limit: usize },
    TotalStringLimitExceeded { requested: usize, limit: usize },
    AllocationLimitExceeded { requested: usize, limit: usize },
    AllocationFailed { field: Seq<char> },
    InvalidUtf8 { field: Seq<char> },
    LengthOverflow { field: Seq<char> },
    CompositeContainsResources { group: Seq<char>, resources: usize },
    SimpleContainsSubgroups { group: Seq<char>, subgroups: usize },
    TrailingData { remaining: usize },
    DecodeContext { offset: u64, context: Seq<char>, field: Seq<char>, source: Box<ErrorView> },
    SemanticContext { context: Seq<char>, source: Box<ErrorView> },
}

impl View for NewtonError {
    type V = ErrorView;

    open spec fn view(&self) -> ErrorView
        decreases self,
    {
        match self {
            NewtonError::Io(_) => ErrorView::Io,
            NewtonError::InvalidGroupType(v) => ErrorView::InvalidGroupType(*v),
            NewtonError::InvalidResourceType(v) => ErrorView::InvalidResourceType(*v),
            NewtonError::InvalidBoolean { field, value } => ErrorView::InvalidBoolean {
                field: field@,
                value: *value,
            },
            NewtonError::MissingRequiredString { field } => ErrorView::MissingRequiredString {
                field: field@,
            },
            NewtonError::InconsistentPresence { field, flag, has_value } =>
                ErrorView::InconsistentPresence { field: field@, flag: *flag, has_value: *has_value },
            NewtonError::NegativeValue { field, value } => ErrorView::NegativeValue {
                field: field@,
                value: *value,
            },
            NewtonError::IntegerOutOfRange { field, value } => ErrorView::IntegerOutOfRange {
                field: field@,
                value: *value,
            },
            NewtonError::CountLimitExceeded { field, count, limit } =>
                ErrorView::CountLimitExceeded { field: field@, count: *count, limit: *limit },
            NewtonError::StringLimitExceeded { length, limit } => ErrorView::StringLimitExceeded {
                length: *length,
                limit: *limit,
            },
            NewtonError::TotalStringLimitExceeded { requested, limit } =>
                ErrorView::TotalStringLimitExceeded { requested: *requested, limit: *limit },
            NewtonError::AllocationLimitExceeded { requested, limit } =>
                ErrorView::AllocationLimitExceeded { requested: *requested, limit: *limit },
            NewtonError::AllocationFailed { field, .. } => ErrorView::AllocationFailed {
                field: field@,
            },
            NewtonError::InvalidUtf8 { field } => ErrorView::InvalidUtf8 { field: field@ },
            NewtonError::LengthOverflow { field } => ErrorView::LengthOverflow { field: field@ },
            NewtonError::CompositeContainsResources { group, resources } =>
                ErrorView::CompositeContainsResources { group: group@, resources: *resources },
            NewtonError::SimpleContainsSubgroups { group, subgroups } =>
                ErrorView::SimpleContainsSubgroups { group: group@, subgroups: *subgroups },
            NewtonError::TrailingData { remaining } => ErrorView::TrailingData {
                remaining: *remaining,
            },
            NewtonError::DecodeContext { offset, context, field, source } =>
                ErrorView::DecodeContext {
                    offset: *offset,
                    context: context@,
                    field: field@,
                    source: Box::new((**source).view()),
                },
            NewtonError::SemanticContext { context, source } => ErrorView::SemanticContext {
                context: context@,
                source: Box::new((**source).view()),
            },
        }
    }
}

impl ErrorView {
    /// The innermost cause, with every location wrapper removed.
    pub open spec fn root(self) -> ErrorView
        decreases self,
    {
        match self {
            ErrorView::DecodeContext { source, .. } => (*source).root(),
            ErrorView::SemanticContext { source, .. } => (*source).root(),
            other => other,
        }
    }

    /// True when this error is a location wrapper.
    pub open spec fn is_context(self) -> bool {
        self is DecodeContext || self is SemanticContext
    }
}

impl NewtonError {
    /// Innermost structured cause, without its decode location wrapper.
    pub fn root_cause(&self) -> (r: &Self)
        ensures
            r@ == self@.root(),
            !r@.is_context(),
        decreases self,
    {
        match self {
            NewtonError::DecodeContext { source, .. } => (**source).root_cause(),
            NewtonError::SemanticContext { source, .. } => (**source).root_cause(),
            error => error,
        }
    }
}


pub type Result<T> = core::result::Result<T, NewtonError>;

} // verus!
