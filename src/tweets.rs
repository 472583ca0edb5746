use vstd::prelude::*;
use vstd::string::*;

use crate::review::Review;

verus! {

/// How many reviews one bulk request carries.
pub const BATCH_SIZE: usize = 4000;

/// The rating given to every review made from a tweet.
pub const TWEET_RATING: i32 = 3;

/// One row of a tweet export.
#[derive(Debug)]
pub struct Tweet {
    pub id: String,
    pub user: String,
    pub fullname: String,
    pub url: Option<String>,
    pub timestamp: String,
    pub replies: Option<i32>,
    pub likes: Option<i32>,
    pub retweets: Option<i32>,
    pub text: String,
}

impl Tweet {
    /// The review that stands for this tweet: titled after its author, with
    /// the tweet's text as body, its id as product id and a middle rating.
    pub fn to_review(&self) -> (r: Review)
        ensures
            r.review_title@ == "Tweet by "@ + self.user@,
            r.review_body@ == self.text@,
            r.product_id@ == self.id@,
            r.review_rating == TWEET_RATING,
    {
        let mut title = String::from_str("Tweet by ");
        title.append(self.user.as_str());
        Review {
            review_title: title,
            review_body: self.text.clone(),
            product_id: self.id.clone(),
            review_rating: TWEET_RATING,
        }
    }
}

/// Collects reviews and hands them out in batches of a fixed size.
pub struct ReviewBatcher {
    pending: Vec<Review>,
    capacity: usize,
}

impl ReviewBatcher {
    #[verifier::type_invariant]
    spec fn inv(&self) -> bool {
        0 < self.capacity && self.pending@.len() < self.capacity
    }

    /// The reviews collected and not yet handed out.
    pub closed spec fn spec_pending(&self) -> Seq<Review> {
        self.pending@
    }

    /// The size of a full batch.
    pub closed spec fn spec_capacity(&self) -> nat {
        self.capacity as nat
    }

    pub fn new(capacity: usize) -> (r: ReviewBatcher)
        requires
            capacity > 0,
        ensures
            r.spec_pending().len() == 0,
            r.spec_capacity() == capacity,
    {
        ReviewBatcher { pending: Vec::new(), capacity }
    }

    /// The number of reviews waiting for the next batch.
    pub fn pending_len(&self) -> (r: usize)
        ensures
            r == self.spec_pending().len(),
            r < self.spec_capacity(),
    {
        proof {
            use_type_invariant(self);
        }
        self.pending.len()
    }

    /// Adds a review; once the batch is full, hands the whole batch out and
    /// starts an empty one.
    pub fn push(&mut self, review: Review) -> (r: Option<Vec<Review>>)
        ensures
            final(self).spec_capacity() == old(self).spec_capacity(),
            final(self).spec_pending().len() < final(self).spec_capacity(),
            r is Some <==> old(self).spec_pending().len() + 1 >= old(self).spec_capacity(),
            r matches Some(batch) ==> (batch@ == old(self).spec_pending().push(review)
                && final(self).spec_pending().len() == 0),
            r is None ==> final(self).spec_pending() == old(self).spec_pending().push(review),
    {
        proof {
            use_type_invariant(&*self);
        }
        let mut batch: Vec<Review> = Vec::new();
        std::mem::swap(&mut batch, &mut self.pending);
        batch.push(review);
        if batch.len() >= self.capacity {
            Some(batch)
        } else {
            std::mem::swap(&mut batch, &mut self.pending);
            None
        }
    }

    /// Hands out what was collected, if anything, and leaves the batcher empty.
    pub fn finish(&mut self) -> (r: Option<Vec<Review>>)
        ensures
            final(self).spec_capacity() == old(self).spec_capacity(),
            final(self).spec_capacity() > 0,
            final(self).spec_pending().len() == 0,
            old(self).spec_pending().len() == 0 ==> r is None,
            old(self).spec_pending().len() > 0 ==> (r matches Some(batch) && batch@ == old(
                self,
            ).spec_pending()),
    {
        proof {
            use_type_invariant(&*self);
        }
        let mut batch: Vec<Review> = Vec::new();
        std::mem::swap(&mut batch, &mut self.pending);
        if batch.len() == 0 {
            None
        } else {
            Some(batch)
        }
    }
}

} // verus!
