//! The calls into outside crates that the library's logic makes. Each result that takes
//! pages to state is given a name, a function of the call's arguments alone.
use vstd::prelude::*;

verus! {

/// The HTML that the `markdown` crate renders for a markdown text.
pub uninterp spec fn markdown_html(text: Seq<char>) -> Seq<char>;

/// `markdown::to_html`: renders markdown as HTML with the default options. Claimed: the
/// result is `markdown_html` of the text (it depends on the text alone); the crate's own
/// documentation says that this never fails without MDX, which the default options leave off.
#[verifier::external_body]
pub(crate) fn markdown_to_html(text: &str) -> (html: String)
    ensures
        html@ == markdown_html(text@),
{
    markdown::to_html(text)
}

/// The MD5 digest of a byte sequence.
pub uninterp spec fn md5_digest(data: Seq<u8>) -> Seq<u8>;

/// `md5::compute`: the 16 bytes of the MD5 digest of `data`. Claimed: they are
/// `md5_digest(data)`.
#[verifier::external_body]
pub(crate) fn md5_compute(data: &[u8]) -> (digest: [u8; 16])
    ensures
        digest@ == md5_digest(data@),
{
    md5::compute(data).0
}

/// The UNIX timestamp of the date and time that `chrono` reads from `text` in `format`,
/// taken as UTC, or `None` where it reads none.
pub uninterp spec fn datetime_timestamp(text: Seq<char>, format: Seq<char>) -> Option<i64>;

/// `chrono::NaiveDateTime::parse_from_str` followed by `.and_utc().timestamp()`. Claimed: the
/// result is `datetime_timestamp(text, format)`, `None` where parsing fails.
#[verifier::external_body]
pub(crate) fn parse_timestamp(text: &str, format: &str) -> (t: Option<i64>)
    ensures
        t == datetime_timestamp(text@, format@),
{
    match chrono::NaiveDateTime::parse_from_str(text, format) {
        Ok(d) => Some(d.and_utc().timestamp()),
        Err(_) => None,
    }
}

/// The slug that `slugify` makes of a text.
pub uninterp spec fn slug_of(
    text: Seq<char>,
    stop_words: Seq<char>,
    separator: Seq<char>,
    max_length: Option<usize>,
) -> Seq<char>;

/// `slugify::slugify`: transliterates, lowercases and joins the words of `text` with the
/// first character of `separator`. It indexes that character and writes it as one byte, so
/// `requires` asks for a separator that starts with an ASCII character. Claimed: the result is
/// `slug_of` of the arguments.
#[verifier::external_body]
pub(crate) fn slugify_text(
    text: &str,
    stop_words: &str,
    separator: &str,
    max_length: Option<usize>,
) -> (slug: String)
    requires
        separator@.len() > 0,
        (separator@[0] as u32) < 128,
    ensures
        slug@ == slug_of(text@, stop_words@, separator@, max_length),
{
    slugify::slugify(text, stop_words, separator, max_length)
}

/// For each match of the regular expression `pattern` in `haystack`, from the left, the
/// text of capture group `group` where it took part; `None` where `pattern` does not compile.
pub uninterp spec fn regex_group_texts(pattern: Seq<char>, haystack: Seq<char>, group: nat) -> Option<
    Seq<Option<Seq<char>>>,
>;

/// The character sequences of optional strings.
pub open spec fn optional_texts(v: Seq<Option<String>>) -> Seq<Option<Seq<char>>> {
    Seq::new(
        v.len(),
        |i: int|
            match v[i] {
                Some(s) => Some(s@),
                None => None,
            },
    )
}

/// `regex::Regex::new` followed by `captures_iter` and `Captures::get(group)`. Claimed: the
/// result is `regex_group_texts(pattern, haystack, group)`, `None` where `Regex::new` fails.
#[verifier::external_body]
pub(crate) fn regex_capture_group(pattern: &str, haystack: &str, group: usize) -> (r: Option<
    Vec<Option<String>>,
>)
    ensures
        match r {
            Some(v) => regex_group_texts(pattern@, haystack@, group as nat) == Some(
                optional_texts(v@),
            ),
            None => regex_group_texts(pattern@, haystack@, group as nat) is None,
        },
{
    match regex::Regex::new(pattern) {
        Ok(re) => Some(
            re.captures_iter(haystack).map(|c| c.get(group).map(|m| m.as_str().to_string())).collect(),
        ),
        Err(_) => None,
    }
}

/// The RSS document that the `rss` crate writes for a channel with a title, a description
/// and items given as (title, content, link).
pub uninterp spec fn rss_xml(
    title: Seq<char>,
    description: Seq<char>,
    items: Seq<(Seq<char>, Seq<char>, Seq<char>)>,
) -> Seq<char>;

/// The (title, content, link) texts of feed items.
pub open spec fn item_texts(items: Seq<crate::feed::FeedItem>) -> Seq<(Seq<char>, Seq<char>, Seq<char>)> {
    Seq::new(items.len(), |i: int| (items[i].title@, items[i].content@, items[i].link@))
}

/// `rss::ChannelBuilder` and `rss::ItemBuilder` with the given texts, `Channel::set_items`,
/// and the channel's `Display`. Claimed: the result is `rss_xml` of those texts.
#[verifier::external_body]
pub(crate) fn render_rss(title: &String, description: &String, items: &Vec<crate::feed::FeedItem>) -> (xml: String)
    ensures
        xml@ == rss_xml(title@, description@, item_texts(items@)),
{
    let mut channel = rss::ChannelBuilder::default().title(title.clone()).description(
        description.clone(),
    ).build();
    channel.set_items(
        items.iter().map(|i| rss::ItemBuilder::default().title(i.title.clone()).content(Some(i.content.clone())).link(i.link.clone()).build()).collect::<Vec<rss::Item>>(),
    );
    channel.to_string()
}

} // verus!
