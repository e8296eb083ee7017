//! A blog post that moves through draft, pending-review and published
//! states; its text is visible only once published.

use vstd::prelude::*;
use vstd::string::StringExecFns;

verus! {

/// The review state of a post.
enum State {
    Draft,
    PendingReview,
    Published,
}

/// A blog post: its accumulated text and its review state. A fresh
/// post is a draft; `request_review` sends a draft to review;
/// `approve` publishes a post under review; `content` shows the text
/// only once published.
pub struct Post {
    state: State,
    content: String,
}

/// The post is still a draft.
pub closed spec fn is_draft(p: Post) -> bool {
    p.state is Draft
}

/// The post is waiting for review.
pub closed spec fn is_pending(p: Post) -> bool {
    p.state is PendingReview
}

/// The post has been published.
pub closed spec fn is_published(p: Post) -> bool {
    p.state is Published
}

/// The text the post has accumulated, visible or not.
pub closed spec fn text_of(p: Post) -> Seq<char> {
    p.content@
}

impl Post {
    /// A fresh, empty draft.
    pub fn new() -> (p: Post)
        ensures
            is_draft(p),
            text_of(p) == Seq::<char>::empty(),
    {
        Post { state: State::Draft, content: String::new() }
    }

    /// Appends `text` to the post's content, in any state.
    pub fn add_text(&mut self, text: &str)
        ensures
            text_of(*final(self)) == text_of(*old(self)) + text@,
            is_draft(*final(self)) == is_draft(*old(self)),
            is_pending(*final(self)) == is_pending(*old(self)),
            is_published(*final(self)) == is_published(*old(self)),
    {
        self.content.append(text);
    }

    /// The visible content: the accumulated text once the post is
    /// published, and nothing before that.
    pub fn content(&self) -> (r: &str)
        ensures
            r@ == if is_published(*self) {
                text_of(*self)
            } else {
                Seq::<char>::empty()
            },
    {
        proof {
            reveal_strlit("");
            assert(""@ =~= Seq::<char>::empty());
        }
        match self.state {
            State::Published => self.content.as_str(),
            State::Draft => "",
            State::PendingReview => "",
        }
    }

    /// Sends a draft to review; in any other state nothing changes.
    pub fn request_review(&mut self)
        ensures
            text_of(*final(self)) == text_of(*old(self)),
            is_pending(*final(self)) == (is_pending(*old(self)) || is_draft(*old(self))),
            is_draft(*final(self)) == false,
            is_published(*final(self)) == is_published(*old(self)),
    {
        match self.state {
            State::Draft => {
                self.state = State::PendingReview;
            },
            State::PendingReview => {},
            State::Published => {},
        }
    }

    /// Publishes a post under review; a draft or an already published
    /// post is left as it is.
    pub fn approve(&mut self)
        ensures
            text_of(*final(self)) == text_of(*old(self)),
            is_published(*final(self)) == (is_published(*old(self)) || is_pending(*old(self))),
            is_pending(*final(self)) == false,
            is_draft(*final(self)) == is_draft(*old(self)),
    {
        match self.state {
            State::PendingReview => {
                self.state = State::Published;
            },
            State::Draft => {},
            State::Published => {},
        }
    }
}

} // verus!
