use vstd::prelude::*;
use vstd::string::*;

use crate::error::AppError;
use crate::text::{decimal_of, decimal_text, trim_of, trimmed};

verus! {

/// The largest number of results one search may ask for.
pub const MAX_TOP_K: usize = 100;

/// The number of results a search returns when the request names none.
pub fn default_top_k() -> (r: usize)
    ensures
        r == 5,
{
    5
}

/// A customer review as clients submit it.
#[derive(Debug)]
pub struct Review {
    pub review_title: String,
    pub review_body: String,
    pub product_id: String,
    pub review_rating: i32,
}

/// What makes a review unacceptable, in the order the checks are made.
#[derive(Debug, Clone, Copy, PartialEq, Eq, Structural)]
pub enum ReviewProblem {
    EmptyTitle,
    EmptyBody,
    EmptyProductId,
    InvalidRating,
}

/// The first problem of a review whose text fields, already trimmed, are
/// `title`, `body` and `product_id`; a rating must lie in `1..=5`.
pub open spec fn problem_of(title: Seq<char>, body: Seq<char>, product_id: Seq<char>, rating: int) -> Option<ReviewProblem> {
    if title.len() == 0 {
        Some(ReviewProblem::EmptyTitle)
    } else if body.len() == 0 {
        Some(ReviewProblem::EmptyBody)
    } else if product_id.len() == 0 {
        Some(ReviewProblem::EmptyProductId)
    } else if rating < 1 || rating > 5 {
        Some(ReviewProblem::InvalidRating)
    } else {
        None
    }
}

/// Checks the fields of a review whose text fields are already trimmed.
pub fn check_fields(title: &str, body: &str, product_id: &str, rating: i32) -> (r: Option<ReviewProblem>)
    ensures
        r == problem_of(title@, body@, product_id@, rating as int),
{
    if title.is_empty() {
        Some(ReviewProblem::EmptyTitle)
    } else if body.is_empty() {
        Some(ReviewProblem::EmptyBody)
    } else if product_id.is_empty() {
        Some(ReviewProblem::EmptyProductId)
    } else if rating < 1 || rating > 5 {
        Some(ReviewProblem::InvalidRating)
    } else {
        None
    }
}

impl ReviewProblem {
    /// The message for a single submitted review.
    pub open spec fn spec_message(self) -> Seq<char> {
        match self {
            ReviewProblem::EmptyTitle => "Review title cannot be empty"@,
            ReviewProblem::EmptyBody => "Review body cannot be empty"@,
            ReviewProblem::EmptyProductId => "Product ID cannot be empty"@,
            ReviewProblem::InvalidRating => "Review rating must be between 1 and 5"@,
        }
    }

    /// How the message for a review in a batch ends.
    pub open spec fn spec_batch_suffix(self) -> Seq<char> {
        match self {
            ReviewProblem::EmptyTitle => " has empty title"@,
            ReviewProblem::EmptyBody => " has empty body"@,
            ReviewProblem::EmptyProductId => " has empty product ID"@,
            ReviewProblem::InvalidRating => " has invalid rating"@,
        }
    }

    /// The message for the review at `index` of a batch.
    pub open spec fn spec_message_at(self, index: nat) -> Seq<char> {
        "Review at index "@ + decimal_of(index) + self.spec_batch_suffix()
    }

    pub fn message(&self) -> (r: String)
        ensures
            r@ == self.spec_message(),
    {
        match self {
            ReviewProblem::EmptyTitle => String::from_str("Review title cannot be empty"),
            ReviewProblem::EmptyBody => String::from_str("Review body cannot be empty"),
            ReviewProblem::EmptyProductId => String::from_str("Product ID cannot be empty"),
            ReviewProblem::InvalidRating => String::from_str("Review rating must be between 1 and 5"),
        }
    }

    pub fn message_at(&self, index: usize) -> (r: String)
        ensures
            r@ == self.spec_message_at(index as nat),
    {
        let mut m = String::from_str("Review at index ");
        let digits = decimal_text(index);
        m.append(digits.as_str());
        match self {
            ReviewProblem::EmptyTitle => m.append(" has empty title"),
            ReviewProblem::EmptyBody => m.append(" has empty body"),
            ReviewProblem::EmptyProductId => m.append(" has empty product ID"),
            ReviewProblem::InvalidRating => m.append(" has invalid rating"),
        }
        m
    }
}

/// The text embedded for a review: the trimmed title and body joined by one
/// space.
pub open spec fn joined_text(title: Seq<char>, body: Seq<char>) -> Seq<char> {
    title + " "@ + body
}

/// Joins an already trimmed title and body into the text that is embedded.
pub fn join_title_body(title: &str, body: &str) -> (r: String)
    ensures
        r@ == joined_text(title@, body@),
{
    let mut s = String::from_str(title);
    s.append(" ");
    s.append(body);
    s
}

impl Review {
    /// The first problem of this review, its text fields trimmed.
    pub open spec fn spec_problem(&self) -> Option<ReviewProblem> {
        problem_of(
            trim_of(self.review_title@),
            trim_of(self.review_body@),
            trim_of(self.product_id@),
            self.review_rating as int,
        )
    }

    pub fn problem(&self) -> (r: Option<ReviewProblem>)
        ensures
            r == self.spec_problem(),
    {
        let title = trimmed(self.review_title.as_str());
        let body = trimmed(self.review_body.as_str());
        let product_id = trimmed(self.product_id.as_str());
        check_fields(title, body, product_id, self.review_rating)
    }

    /// Accepts a review with a title, a body and a product id that are not
    /// blank and a rating from 1 to 5; otherwise names the first problem.
    pub fn validate(&self) -> (r: Result<(), AppError>)
        ensures
            r is Ok <==> self.spec_problem() is None,
            self.spec_problem() matches Some(p) ==> (r matches Err(AppError::ValidationError(m))
                && m@ == p.spec_message()),
    {
        match self.problem() {
            None => Ok(()),
            Some(p) => Err(AppError::ValidationError(p.message())),
        }
    }

    /// The text that stands for this review in the vector store.
    pub fn embedding_text(&self) -> (r: String)
        ensures
            r@ == joined_text(trim_of(self.review_title@), trim_of(self.review_body@)),
    {
        let title = trimmed(self.review_title.as_str());
        let body = trimmed(self.review_body.as_str());
        join_title_body(title, body)
    }
}

/// Accepts a batch when every review in it is acceptable; otherwise the error
/// names the first unacceptable review by its index, and its first problem.
pub fn validate_batch(reviews: &Vec<Review>) -> (r: Result<(), AppError>)
    ensures
        r is Ok <==> forall|i: int| 0 <= i < reviews@.len() ==> (#[trigger] reviews@[i]).spec_problem() is None,
        r is Err ==> exists|i: int|
            #![trigger reviews@[i]]
            0 <= i < reviews@.len() && (forall|j: int| 0 <= j < i ==> (#[trigger] reviews@[j]).spec_problem() is None)
                && (reviews@[i].spec_problem() matches Some(p) && r matches Err(
                AppError::ValidationError(m),
            ) && m@ == p.spec_message_at(i as nat)),
{
    let mut i: usize = 0;
    while i < reviews.len()
        invariant
            i <= reviews@.len(),
            forall|j: int| 0 <= j < i ==> (#[trigger] reviews@[j]).spec_problem() is None,
        decreases reviews.len() - i,
    {
        match reviews[i].problem() {
            Some(p) => {
                let m = p.message_at(i);
                let r = Err(AppError::ValidationError(m));
                assert(reviews@[i as int].spec_problem() matches Some(q) && r matches Err(
                    AppError::ValidationError(mm),
                ) && mm@ == q.spec_message_at(i as nat));
                return r;
            },
            None => {},
        }
        i += 1;
    }
    Ok(())
}

/// The characters of an optional string.
pub open spec fn option_chars(o: Option<&str>) -> Option<Seq<char>> {
    match o {
        Some(s) => Some(s@),
        None => None,
    }
}

/// The characters of an optional string after trimming.
pub open spec fn option_trimmed(o: Option<&str>) -> Option<Seq<char>> {
    match o {
        Some(s) => Some(trim_of(s@)),
        None => None,
    }
}

/// Whether an optional part is there and not empty.
pub open spec fn is_present(part: Option<Seq<char>>) -> bool {
    part matches Some(p) && p.len() > 0
}

/// The text that stands for a stored record: its title and body, those that
/// are present, joined by one space; where neither is, `fallback`.
pub open spec fn record_text(title: Option<Seq<char>>, body: Option<Seq<char>>, fallback: Seq<char>) -> Seq<char> {
    if is_present(title) && is_present(body) {
        joined_text(title->0, body->0)
    } else if is_present(title) {
        title->0
    } else if is_present(body) {
        body->0
    } else {
        fallback
    }
}

/// Composes the text of a record from its already trimmed title and body.
pub fn compose_record_text(title: Option<&str>, body: Option<&str>, fallback: &str) -> (r: String)
    ensures
        r@ == record_text(option_chars(title), option_chars(body), fallback@),
{
    let title_part = match title {
        Some(t) => if t.is_empty() {
            None
        } else {
            Some(t)
        },
        None => None,
    };
    let body_part = match body {
        Some(b) => if b.is_empty() {
            None
        } else {
            Some(b)
        },
        None => None,
    };
    match (title_part, body_part) {
        (Some(t), Some(b)) => join_title_body(t, b),
        (Some(t), None) => String::from_str(t),
        (None, Some(b)) => String::from_str(b),
        (None, None) => String::from_str(fallback),
    }
}

/// The text embedded for a stored record whose title and body fields, where
/// it has them, are `title` and `body`; `fallback` stands for a record with
/// neither.
pub fn extract_text(title: Option<&str>, body: Option<&str>, fallback: &str) -> (r: String)
    ensures
        r@ == record_text(option_trimmed(title), option_trimmed(body), fallback@),
{
    let title_trimmed = match title {
        Some(t) => Some(trimmed(t)),
        None => None,
    };
    let body_trimmed = match body {
        Some(b) => Some(trimmed(b)),
        None => None,
    };
    compose_record_text(title_trimmed, body_trimmed, fallback)
}

/// A search request: the query text and how many results it wants.
#[derive(Debug)]
pub struct SearchQuery {
    pub query: String,
    pub top_k: usize,
}

/// The problem with a search request whose query, already trimmed, is
/// `query`, or `None` where it is acceptable.
pub open spec fn search_error(query: Seq<char>, top_k: int) -> Option<Seq<char>> {
    if query.len() == 0 {
        Some("Search query cannot be empty"@)
    } else if top_k == 0 {
        Some("top_k must be greater than 0"@)
    } else if top_k > MAX_TOP_K {
        Some("top_k cannot be greater than 100"@)
    } else {
        None
    }
}

/// Checks a search request whose query text is already trimmed.
pub fn validate_search(query: &str, top_k: usize) -> (r: Result<(), AppError>)
    ensures
        r is Ok <==> search_error(query@, top_k as int) is None,
        search_error(query@, top_k as int) matches Some(msg) ==> (r matches Err(
            AppError::ValidationError(m),
        ) && m@ == msg),
{
    if query.is_empty() {
        Err(AppError::ValidationError(String::from_str("Search query cannot be empty")))
    } else if top_k == 0 {
        Err(AppError::ValidationError(String::from_str("top_k must be greater than 0")))
    } else if top_k > MAX_TOP_K {
        Err(AppError::ValidationError(String::from_str("top_k cannot be greater than 100")))
    } else {
        Ok(())
    }
}

impl SearchQuery {
    /// Accepts a request whose query is not blank and whose `top_k` lies in
    /// `1..=100`.
    pub fn validate(&self) -> (r: Result<(), AppError>)
        ensures
            r is Ok <==> search_error(trim_of(self.query@), self.top_k as int) is None,
            search_error(trim_of(self.query@), self.top_k as int) matches Some(msg) ==> (r matches Err(
                AppError::ValidationError(m),
            ) && m@ == msg),
    {
        validate_search(trimmed(self.query.as_str()), self.top_k)
    }
}

/// How many stored vectors a search ranks before reranking: ten per wanted
/// result, at most 200.
pub fn candidate_pool(top_k: usize) -> (r: usize)
    ensures
        r == if top_k * 10 <= 200 {
            top_k * 10
        } else {
            200
        },
{
    if top_k <= 20 {
        top_k * 10
    } else {
        200
    }
}

} // verus!
