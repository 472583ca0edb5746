use backend::error::AppError;
use backend::review::{
    candidate_pool, default_top_k, extract_text, validate_batch, validate_search, Review, ReviewProblem,
    SearchQuery,
};

fn review(title: &str, body: &str, product: &str, rating: i32) -> Review {
    Review {
        review_title: title.to_string(),
        review_body: body.to_string(),
        product_id: product.to_string(),
        review_rating: rating,
    }
}

fn message(r: Result<(), AppError>) -> String {
    match r {
        Err(AppError::ValidationError(m)) => m,
        other => panic!("expected a validation error, got {:?}", other),
    }
}

#[test]
fn default_top_k_is_five() {
    assert_eq!(default_top_k(), 5);
}

#[test]
fn good_review_passes() {
    assert!(review("Great", "Works well", "p1", 5).validate().is_ok());
    assert!(review("Meh", "Fine", "p2", 1).validate().is_ok());
}

#[test]
fn review_problems_in_order() {
    assert_eq!(message(review("  ", "b", "p", 3).validate()), "Review title cannot be empty");
    assert_eq!(message(review("t", "\t\n", "p", 3).validate()), "Review body cannot be empty");
    assert_eq!(message(review("t", "b", " ", 3).validate()), "Product ID cannot be empty");
    assert_eq!(message(review("t", "b", "p", 0).validate()), "Review rating must be between 1 and 5");
    assert_eq!(message(review("t", "b", "p", 6).validate()), "Review rating must be between 1 and 5");
    assert_eq!(message(review("", "", "", 9).validate()), "Review title cannot be empty");
    assert_eq!(review("t", "b", "p", -2).problem(), Some(ReviewProblem::InvalidRating));
}

#[test]
fn batch_names_first_bad_index() {
    let reviews = vec![
        review("a", "b", "c", 3),
        review("a", "b", "c", 4),
        review("a", " ", "c", 4),
        review("", "b", "c", 4),
    ];
    assert_eq!(message(validate_batch(&reviews)), "Review at index 2 has empty body");
    let reviews: Vec<Review> = Vec::new();
    assert!(validate_batch(&reviews).is_ok());
    let mut many: Vec<Review> = (0..12).map(|_| review("a", "b", "c", 3)).collect();
    many.push(review("a", "b", "c", 7));
    assert_eq!(message(validate_batch(&many)), "Review at index 12 has invalid rating");
    let last = vec![review("a", "b", "", 2)];
    assert_eq!(message(validate_batch(&last)), "Review at index 0 has empty product ID");
    let title = vec![review("a", "b", "c", 2), review("\n", "b", "c", 2)];
    assert_eq!(message(validate_batch(&title)), "Review at index 1 has empty title");
}

#[test]
fn embedding_text_joins_trimmed_title_and_body() {
    let r = review("  Nice phone ", "\tbattery lasts\n", "p", 4);
    assert_eq!(r.embedding_text(), "Nice phone battery lasts");
}

#[test]
fn search_query_validation() {
    let q = |s: &str, k: usize| SearchQuery { query: s.to_string(), top_k: k };
    assert!(q("phone", 5).validate().is_ok());
    assert!(q("phone", 100).validate().is_ok());
    assert_eq!(message(q("   ", 5).validate()), "Search query cannot be empty");
    assert_eq!(message(q("phone", 0).validate()), "top_k must be greater than 0");
    assert_eq!(message(q("phone", 101).validate()), "top_k cannot be greater than 100");
    assert_eq!(message(validate_search("", 0)), "Search query cannot be empty");
}

#[test]
fn candidate_pool_is_ten_per_result_capped() {
    assert_eq!(candidate_pool(1), 10);
    assert_eq!(candidate_pool(5), 50);
    assert_eq!(candidate_pool(20), 200);
    assert_eq!(candidate_pool(21), 200);
    assert_eq!(candidate_pool(100), 200);
    assert_eq!(candidate_pool(usize::MAX), 200);
}

#[test]
fn extract_text_prefers_title_and_body() {
    assert_eq!(extract_text(Some(" T "), Some(" B "), "{}"), "T B");
    assert_eq!(extract_text(Some("T"), Some("  "), "{}"), "T");
    assert_eq!(extract_text(None, Some("B"), "{}"), "B");
    assert_eq!(extract_text(Some(""), None, "{\"x\":1}"), "{\"x\":1}");
    assert_eq!(extract_text(None, None, "raw"), "raw");
}
