use vstd::prelude::*;

verus! {

/// A parsed query operation on a Merkle structure.
#[derive(Clone, Debug, PartialEq, Eq)]
pub enum CashewExpression {
    /// Get value at key.
    Get(String),
    /// Array: get value at index.
    GetAt(usize),
    /// Get all keys.
    Keys,
    /// Get sorted keys with optional pagination.
    SortedKeys { limit: Option<usize>, after: Option<String> },
    /// Get all values.
    Values,
    /// Get sorted values with optional pagination.
    SortedValues { limit: Option<usize>, after: Option<String> },
    /// Get count of entries.
    Count,
    /// Check if a key exists.
    Contains(String),
    /// Array: get first element.
    First,
    /// Array: get last element.
    Last,
    /// Insert a new key-value pair.
    Insert { key: String, value: String },
    /// Update an existing key-value pair.
    Update { key: String, value: String },
    /// Insert or update (the `set` / `put` command).
    Put { key: String, value: String },
    /// Delete a key.
    Delete(String),
    /// Array: append a value.
    Append(String),
}

/// Model of an expression, strings taken by their characters.
pub enum ExpressionView {
    Get(Seq<char>),
    GetAt(usize),
    Keys,
    SortedKeys { limit: Option<usize>, after: Option<Seq<char>> },
    Values,
    SortedValues { limit: Option<usize>, after: Option<Seq<char>> },
    Count,
    Contains(Seq<char>),
    First,
    Last,
    Insert { key: Seq<char>, value: Seq<char> },
    Update { key: Seq<char>, value: Seq<char> },
    Put { key: Seq<char>, value: Seq<char> },
    Delete(Seq<char>),
    Append(Seq<char>),
}

pub open spec fn opt_string_view(o: Option<String>) -> Option<Seq<char>> {
    match o {
        Some(s) => Some(s@),
        None => None,
    }
}

impl View for CashewExpression {
    type V = ExpressionView;

    open spec fn view(&self) -> ExpressionView {
        match self {
            CashewExpression::Get(s) => ExpressionView::Get(s@),
            CashewExpression::GetAt(n) => ExpressionView::GetAt(*n),
            CashewExpression::Keys => ExpressionView::Keys,
            CashewExpression::SortedKeys { limit, after } => ExpressionView::SortedKeys {
                limit: *limit,
                after: opt_string_view(*after),
            },
            CashewExpression::Values => ExpressionView::Values,
            CashewExpression::SortedValues { limit, after } => ExpressionView::SortedValues {
                limit: *limit,
                after: opt_string_view(*after),
            },
            CashewExpression::Count => ExpressionView::Count,
            CashewExpression::Contains(s) => ExpressionView::Contains(s@),
            CashewExpression::First => ExpressionView::First,
            CashewExpression::Last => ExpressionView::Last,
            CashewExpression::Insert { key, value } => ExpressionView::Insert { key: key@, value: value@ },
            CashewExpression::Update { key, value } => ExpressionView::Update { key: key@, value: value@ },
            CashewExpression::Put { key, value } => ExpressionView::Put { key: key@, value: value@ },
            CashewExpression::Delete(s) => ExpressionView::Delete(s@),
            CashewExpression::Append(s) => ExpressionView::Append(s@),
        }
    }
}

} // verus!
