//! Summaries of content items: a trait with a default summary built
//! from the author line, and two item kinds implementing it.

use vstd::prelude::*;
use vstd::string::StringExecFns;

verus! {

/// A news article.
pub struct NewsArticle {
    pub headline: String,
    pub location: String,
    pub author: String,
    pub content: String,
}

/// A tweet.
pub struct Tweet {
    pub username: String,
    pub content: String,
    pub reply: bool,
    pub retweet: bool,
}

/// Behavior for summarizing an item: implementors provide the author
/// line, and the default summary quotes it.
pub trait Summary {
    /// The author line the implementor promises to produce.
    spec fn spec_author(&self) -> Seq<char>;

    /// The author line of this item.
    fn summarize_author(&self) -> (r: String)
        ensures
            r@ == self.spec_author(),
    ;

    /// A short summary of this item, built from the author line.
    fn summarize(&self) -> (r: String)
        ensures
            r@ == "(Read more from "@ + self.spec_author() + "...)"@,
    {
        let mut s = String::from_str("(Read more from ");
        let author = self.summarize_author();
        s.append(author.as_str());
        s.append("...)");
        s
    }
}

impl Summary for NewsArticle {
    open spec fn spec_author(&self) -> Seq<char> {
        "by "@ + self.author@
    }

    fn summarize_author(&self) -> (r: String)
        ensures
            r@ == self.spec_author(),
    {
        let mut s = String::from_str("by ");
        s.append(self.author.as_str());
        s
    }
}

impl Summary for Tweet {
    open spec fn spec_author(&self) -> Seq<char> {
        "@"@ + self.username@
    }

    fn summarize_author(&self) -> (r: String)
        ensures
            r@ == self.spec_author(),
    {
        let mut s = String::from_str("@");
        s.append(self.username.as_str());
        s
    }
}

/// Notifies about two items, which may be of different kinds.
pub fn notify_2(item1: &impl Summary, item2: &impl Summary) {
}

/// Notifies about two items of the same kind.
pub fn notify_3<T: Summary>(item1: &T, item2: &T) {
}

/// An example summarizable item.
pub fn returns_summarizable() -> (t: Tweet)
    ensures
        t.username@ == "horse_ebooks"@,
        t.content@ == "of course a horse"@,
        !t.reply,
        !t.retweet,
{
    Tweet {
        username: String::from_str("horse_ebooks"),
        content: String::from_str("of course a horse"),
        reply: false,
        retweet: false,
    }
}

} // verus!
