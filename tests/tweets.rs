use backend::review::Review;
use backend::tweets::{ReviewBatcher, Tweet};

fn tweet(id: &str, user: &str, text: &str) -> Tweet {
    Tweet {
        id: id.to_string(),
        user: user.to_string(),
        fullname: "Full Name".to_string(),
        url: None,
        timestamp: "2019-05-27 11:49:14+00".to_string(),
        replies: Some(0),
        likes: None,
        retweets: Some(2),
        text: text.to_string(),
    }
}

fn titled(n: usize) -> Review {
    Review {
        review_title: format!("r{}", n),
        review_body: "b".to_string(),
        product_id: "p".to_string(),
        review_rating: 3,
    }
}

#[test]
fn tweet_becomes_review() {
    let r = tweet("1132977055300300800", "satoshi", "BTC up").to_review();
    assert_eq!(r.review_title, "Tweet by satoshi");
    assert_eq!(r.review_body, "BTC up");
    assert_eq!(r.product_id, "1132977055300300800");
    assert_eq!(r.review_rating, 3);
    assert!(r.validate().is_ok());
}

#[test]
fn batcher_hands_out_full_batches_then_the_rest() {
    let mut b = ReviewBatcher::new(3);
    assert!(b.push(titled(0)).is_none());
    assert!(b.push(titled(1)).is_none());
    let full = b.push(titled(2)).expect("third review fills the batch");
    let names: Vec<String> = full.iter().map(|r| r.review_title.clone()).collect();
    assert_eq!(names, vec!["r0", "r1", "r2"]);
    assert_eq!(b.pending_len(), 0);
    assert!(b.push(titled(3)).is_none());
    let rest = b.finish().expect("one review is left");
    assert_eq!(rest.len(), 1);
    assert_eq!(rest[0].review_title, "r3");
    assert!(b.finish().is_none());
}
