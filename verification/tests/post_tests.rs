use quadtree::aggregator::{returns_summarizable, NewsArticle, Summary, Tweet};
use quadtree::post::Post;
use quadtree::voxel::{spn_text, VoxelDimensions};

#[test]
fn post_content_hidden_until_published() {
    let mut post = Post::new();
    post.add_text("I ate a salad for lunch today");
    assert_eq!("", post.content());

    post.request_review();
    assert_eq!("", post.content());

    post.approve();
    assert_eq!("I ate a salad for lunch today", post.content());
}

#[test]
fn post_approve_on_draft_does_nothing() {
    let mut post = Post::new();
    post.add_text("draft text");
    post.approve();
    assert_eq!("", post.content());
}

#[test]
fn tweet_summary() {
    let tweet = Tweet {
        username: String::from("horse_ebooks"),
        content: String::from("of course, as you probably already know, people"),
        reply: false,
        retweet: false,
    };
    assert_eq!(tweet.summarize_author(), "@horse_ebooks");
    assert_eq!(tweet.summarize(), "(Read more from @horse_ebooks...)");
}

#[test]
fn article_summary_uses_author() {
    let article = NewsArticle {
        headline: String::from("Penguins win the Stanley Cup Championship!"),
        location: String::from("Pittsburgh, PA, USA"),
        author: String::from("Iceburgh"),
        content: String::from("The Pittsburgh Penguins once again are the best."),
    };
    assert_eq!(article.summarize_author(), "by Iceburgh");
    assert_eq!(article.summarize(), "(Read more from by Iceburgh...)");
}

#[test]
fn summarizable_example() {
    let t = returns_summarizable();
    assert_eq!(t.username, "horse_ebooks");
    assert!(!t.reply);
}

#[test]
fn spn_text_encodes_decimals() {
    let data = vec![0u8, 7, 10, 99, 100, 255];
    let text = spn_text(&data);
    assert_eq!(text, b"0\n7\n10\n99\n100\n255\n".to_vec());
}

#[test]
fn voxel_dimensions_fields() {
    let d = VoxelDimensions { x: 4, y: 5, z: 6 };
    assert_eq!((d.x, d.y, d.z), (4, 5, 6));
}
