use vstd::prelude::*;

verus! {

/// Errors of the library; each carries the message shown to the user.
#[derive(Debug)]
pub enum AppError {
    /// A storage failure, with the storage layer's own message.
    Db(String),
    /// A schema migration failure.
    Migrate(String),
    /// The caller passed an invalid argument.
    Param(String),
    /// The record asked for does not exist.
    NotFound(String),
    /// A business rule forbids the operation.
    Business(String),
    /// Any other internal failure.
    Internal(String),
}

/// The result type used throughout the library.
pub type AppResult<T> = Result<T, AppError>;

/// The error is a parameter error with the given detail.
pub open spec fn is_param_err(e: AppError, msg: Seq<char>) -> bool {
    e is Param && e->Param_0@ == msg
}

/// The error is a business-rule error with the given detail.
pub open spec fn is_business_err(e: AppError, msg: Seq<char>) -> bool {
    e is Business && e->Business_0@ == msg
}

/// The error is a not-found error with the given detail.
pub open spec fn is_not_found_err(e: AppError, msg: Seq<char>) -> bool {
    e is NotFound && e->NotFound_0@ == msg
}

/// The message of a missing record: `<entity> <id> 不存在`.
pub open spec fn not_found_text(entity: Seq<char>, id: Seq<char>) -> Seq<char> {
    entity + " "@ + id + " 不存在"@
}

/// A not-found error for the record `id` of kind `entity`.
pub fn not_found(entity: &str, id: &str) -> (r: AppError)
    ensures
        is_not_found_err(r, not_found_text(entity@, id@)),
{
    AppError::NotFound(String::from_str(entity).concat(" ").concat(id).concat(" 不存在"))
}

/// The message a user sees for an internal failure.
pub open spec fn sanitized_text() -> Seq<char> {
    "内部错误，请稍后重试"@
}

impl AppError {
    /// Internal errors may carry SQL, table names or paths.
    pub open spec fn spec_is_internal(&self) -> bool {
        ||| self is Db
        ||| self is Migrate
        ||| self is Internal
    }

    /// The full text of the error: a prefix naming its kind, then its detail.
    pub open spec fn spec_text(&self) -> Seq<char> {
        match self {
            AppError::Db(m) => "数据库错误: "@ + m@,
            AppError::Migrate(m) => "迁移错误: "@ + m@,
            AppError::Param(m) => "参数错误: "@ + m@,
            AppError::NotFound(m) => "未找到: "@ + m@,
            AppError::Business(m) => "业务逻辑错误: "@ + m@,
            AppError::Internal(m) => "内部错误: "@ + m@,
        }
    }

    /// Whether the error is an internal one, whose details stay out of user view.
    pub fn is_internal(&self) -> (r: bool)
        ensures
            r == self.spec_is_internal(),
    {
        match self {
            AppError::Db(_) | AppError::Migrate(_) | AppError::Internal(_) => true,
            _ => false,
        }
    }

    /// The full text of the error (prefix and detail).
    pub fn text(&self) -> (r: String)
        ensures
            r@ == self.spec_text(),
    {
        match self {
            AppError::Db(m) => String::from_str("数据库错误: ").concat(m.as_str()),
            AppError::Migrate(m) => String::from_str("迁移错误: ").concat(m.as_str()),
            AppError::Param(m) => String::from_str("参数错误: ").concat(m.as_str()),
            AppError::NotFound(m) => String::from_str("未找到: ").concat(m.as_str()),
            AppError::Business(m) => String::from_str("业务逻辑错误: ").concat(m.as_str()),
            AppError::Internal(m) => String::from_str("内部错误: ").concat(m.as_str()),
        }
    }

    /// The text sent to the user interface: internal errors are replaced by a
    /// generic notice, user-level errors are passed on in full.
    pub fn user_text(&self) -> (r: String)
        ensures
            self.spec_is_internal() ==> r@ == sanitized_text(),
            !self.spec_is_internal() ==> r@ == self.spec_text(),
    {
        if self.is_internal() {
            String::from_str("内部错误，请稍后重试")
        } else {
            self.text()
        }
    }
}

} // verus!
