use vstd::prelude::*;
use crate::outside::{
    datetime_timestamp, markdown_html, markdown_to_html, md5_compute, md5_digest, parse_timestamp,
    slug_of, slugify_text,
};
use crate::blog::Blog;
use crate::pagination::joined_path;
use crate::post::{image_sources, images_in_html, texts, Post, PostView};
use crate::text::{
    chars_ends_with, chars_eq, chars_starts_with, ends_with, file_name,
    file_name_chars, from_chars, hex_lower, hex_lower_chars, lines, path_components,
    remove_char, remove_char_chars, replace_all, replace_chars, seqs_of, split_chars,
    split_lines, split_on, starts_with, to_chars, trim, trim_chars,
};
use vstd::utf8::encode_utf8;

verus! {

/// Whether a file name ends with one of the image extensions that uploads may have:
/// `.png`, `.jpeg`, `.gif` or `.jpg`.
pub open spec fn allowed_extension(name: Seq<char>) -> bool {
    ||| ends_with(name, seq!['.', 'p', 'n', 'g'])
    ||| ends_with(name, seq!['.', 'j', 'p', 'e', 'g'])
    ||| ends_with(name, seq!['.', 'g', 'i', 'f'])
    ||| ends_with(name, seq!['.', 'j', 'p', 'g'])
}

/// Checks whether a file name ends with an allowed extension. The file's content is not
/// looked at.
pub fn is_ext_allowed(filename: String) -> (allowed: bool)
    ensures
        allowed == allowed_extension(filename@),
{
    let name = to_chars(filename.as_str());
    let png = vec!['.', 'p', 'n', 'g'];
    let jpeg = vec!['.', 'j', 'p', 'e', 'g'];
    let gif = vec!['.', 'g', 'i', 'f'];
    let jpg = vec!['.', 'j', 'p', 'g'];
    chars_ends_with(&name, &png) || chars_ends_with(&name, &jpeg) || chars_ends_with(&name, &gif)
        || chars_ends_with(&name, &jpg)
}

/// A post's id: the MD5 digest of its path's UTF-8 bytes, in lowercase hexadecimal.
pub open spec fn path_id(path: Seq<char>) -> Seq<char> {
    hex_lower(md5_digest(encode_utf8(path)))
}

/// The id of the post stored at `path`.
pub fn post_id(path: &str) -> (id: String)
    ensures
        id@ == path_id(path@),
        id@.len() == 32,
{
    let digest = md5_compute(path.as_bytes());
    let hex = hex_lower_chars(&digest);
    proof {
        lemma_hex_lower_len(digest@);
    }
    from_chars(&hex)
}

proof fn lemma_hex_lower_len(bytes: Seq<u8>)
    ensures
        hex_lower(bytes).len() == 2 * bytes.len(),
    decreases bytes.len(),
{
    if bytes.len() > 0 {
        lemma_hex_lower_len(bytes.drop_last());
    }
}

/// The marker that hides a post from crawlers.
pub open spec fn hide_marker() -> Seq<char> {
    seq!['h', 'i', 'd', 'e']
}

/// The marker that makes a post a page.
pub open spec fn page_marker() -> Seq<char> {
    seq!['p', 'a', 'g', 'e']
}

/// The marker of an ordinary post, which is the default.
pub open spec fn post_marker() -> Seq<char> {
    seq!['p', 'o', 's', 't']
}

/// One comma-separated entry of a post's tag line, without surrounding white space and
/// without colons.
pub open spec fn tag_word(entry: Seq<char>) -> Seq<char> {
    remove_char(trim(entry), ':')
}

/// The words of a tag line.
pub open spec fn tag_words(tag_line: Seq<char>) -> Seq<Seq<char>> {
    let entries = split_on(tag_line, ',');
    Seq::new(entries.len(), |i: int| tag_word(entries[i]))
}

/// Whether one of the words is `w`.
pub open spec fn has_word(words: Seq<Seq<char>>, w: Seq<char>) -> bool {
    exists|i: int| 0 <= i < words.len() && words[i] == w
}

/// The words that name categories: all but the three markers, in order.
pub open spec fn categories(words: Seq<Seq<char>>) -> Seq<Seq<char>>
    decreases words.len(),
{
    if words.len() == 0 {
        Seq::empty()
    } else {
        let w = words.last();
        if w == hide_marker() || w == page_marker() || w == post_marker() {
            categories(words.drop_last())
        } else {
            categories(words.drop_last()).push(w)
        }
    }
}

/// What a tag line says: the categories, whether the post is hidden from crawlers, and
/// whether it is a page.
pub fn read_tag_line(tag_line: &Vec<char>) -> (r: (Vec<String>, bool, bool))
    ensures
        texts(r.0@) == categories(tag_words(tag_line@)),
        r.1 == has_word(tag_words(tag_line@), hide_marker()),
        r.2 == has_word(tag_words(tag_line@), page_marker()),
{
    let entries = split_chars(tag_line, ',');
    let ghost words = tag_words(tag_line@);
    let hide = vec!['h', 'i', 'd', 'e'];
    let page = vec!['p', 'a', 'g', 'e'];
    let post = vec!['p', 'o', 's', 't'];
    let mut tags: Vec<String> = Vec::new();
    let mut hidden = false;
    let mut is_page = false;
    let mut i: usize = 0;
    while i < entries.len()
        invariant
            words == tag_words(tag_line@),
            seqs_of(entries@) == split_on(tag_line@, ','),
            hide@ == hide_marker(),
            page@ == page_marker(),
            post@ == post_marker(),
            i <= entries.len(),
            texts(tags@) == categories(words.take(i as int)),
            hidden == has_word(words.take(i as int), hide_marker()),
            is_page == has_word(words.take(i as int), page_marker()),
        decreases entries.len() - i,
    {
        let word = remove_char_chars(&trim_chars(&entries[i]), ':');
        let ghost prev = words.take(i as int);
        let ghost next = words.take(i + 1);
        assert(next.drop_last() =~= prev);
        assert(next.last() == word@);
        assert(has_word(next, hide_marker()) == (has_word(prev, hide_marker()) || word@
            == hide_marker())) by {
            if word@ == hide_marker() {
                assert(next[i as int] == word@);
            }
            if has_word(prev, hide_marker()) {
                let k = choose|k: int| 0 <= k < prev.len() && prev[k] == hide_marker();
                assert(next[k] == prev[k]);
            }
            if has_word(next, hide_marker()) && word@ != hide_marker() {
                let k = choose|k: int| 0 <= k < next.len() && next[k] == hide_marker();
                assert(prev[k] == next[k]);
            }
        }
        assert(has_word(next, page_marker()) == (has_word(prev, page_marker()) || word@
            == page_marker())) by {
            if word@ == page_marker() {
                assert(next[i as int] == word@);
            }
            if has_word(prev, page_marker()) {
                let k = choose|k: int| 0 <= k < prev.len() && prev[k] == page_marker();
                assert(next[k] == prev[k]);
            }
            if has_word(next, page_marker()) && word@ != page_marker() {
                let k = choose|k: int| 0 <= k < next.len() && next[k] == page_marker();
                assert(prev[k] == next[k]);
            }
        }
        if chars_eq(&word, &hide) {
            hidden = true;
        } else if chars_eq(&word, &page) {
            is_page = true;
        } else if chars_eq(&word, &post) {
        } else {
            let ghost before = texts(tags@);
            tags.push(from_chars(&word));
            assert(texts(tags@) =~= before.push(word@));
        }
        i = i + 1;
    }
    assert(words.take(entries.len() as int) =~= words);
    (tags, hidden, is_page)
}

/// Lines joined back into a text, each followed by a line feed.
pub open spec fn join_lines(ls: Seq<Seq<char>>) -> Seq<char>
    decreases ls.len(),
{
    if ls.len() == 0 {
        Seq::empty()
    } else {
        join_lines(ls.drop_last()) + ls.last().push('\n')
    }
}

/// The lines `ls[from..]` joined, each followed by a line feed.
fn join_lines_from(ls: &Vec<Vec<char>>, from: usize) -> (r: Vec<char>)
    requires
        from <= ls.len(),
    ensures
        r@ == join_lines(seqs_of(ls@).skip(from as int)),
{
    let ghost all = seqs_of(ls@);
    let mut r: Vec<char> = Vec::new();
    let mut j = from;
    assert(all.subrange(from as int, from as int) =~= Seq::<Seq<char>>::empty());
    while j < ls.len()
        invariant
            all == seqs_of(ls@),
            from <= j <= ls.len(),
            r@ == join_lines(all.subrange(from as int, j as int)),
        decreases ls.len() - j,
    {
        let line = &ls[j];
        let ghost before = r@;
        let mut k: usize = 0;
        while k < line.len()
            invariant
                k <= line.len(),
                r@ == before + line@.take(k as int),
            decreases line.len() - k,
        {
            r.push(line[k]);
            assert(line@.take(k + 1) =~= line@.take(k as int).push(line@[k as int]));
            k = k + 1;
        }
        r.push('\n');
        assert(line@.take(line.len() as int) =~= line@);
        assert(all.subrange(from as int, j + 1).drop_last() =~= all.subrange(from as int, j as int));
        assert(r@ =~= before + line@.push('\n'));
        j = j + 1;
    }
    assert(all.subrange(from as int, ls.len() as int) =~= all.skip(from as int));
    r
}

/// The prefix of a thumbnail's file name.
pub open spec fn thumb_prefix() -> Seq<char> {
    seq!['t', 'h', 'u', 'm', 'b', '_']
}

/// The preview image of a post, given the addresses of the images in it: none when it has
/// none; the thumbnail of the first when that one lies on the blog (its file name, wherever it
/// occurs in the address, prefixed with `thumb_`), `None` when that address has no file name;
/// else the first image itself.
pub open spec fn preview_image(images: Seq<Seq<char>>, blog_url: Seq<char>) -> Option<Seq<char>> {
    if images.len() == 0 {
        Some(Seq::empty())
    } else if starts_with(images[0], blog_url) {
        match file_name(images[0]) {
            Some(name) => Some(replace_all(images[0], name, thumb_prefix() + name)),
            None => None,
        }
    } else {
        Some(images[0])
    }
}

proof fn lemma_path_components_nonempty(parts: Seq<Seq<char>>)
    ensures
        forall|i: int| 0 <= i < path_components(parts).len() ==> #[trigger] path_components(parts)[i].len() > 0,
    decreases parts.len(),
{
    if parts.len() > 0 {
        lemma_path_components_nonempty(parts.drop_last());
        let kept = path_components(parts.drop_last());
        assert forall|i: int| 0 <= i < path_components(parts).len() implies #[trigger] path_components(
            parts,
        )[i].len() > 0 by {
            if i < kept.len() {
                assert(path_components(parts)[i] == kept[i]);
            }
        }
    }
}

/// The preview image of a post.
pub fn preview_image_of(images: &Vec<String>, blog_url: &String) -> (r: Option<String>)
    ensures
        match r {
            Some(image) => preview_image(texts(images@), blog_url@) == Some(image@),
            None => preview_image(texts(images@), blog_url@) is None,
        },
{
    if images.len() == 0 {
        return Some(String::new());
    }
    let first = to_chars(images[0].as_str());
    let url = to_chars(blog_url.as_str());
    if chars_starts_with(&first, &url) {
        match file_name_chars(&first) {
            None => None,
            Some(name) => {
                proof {
                    lemma_path_components_nonempty(split_on(first@, '/'));
                }
                let mut thumb = vec!['t', 'h', 'u', 'm', 'b', '_'];
                let mut k: usize = 0;
                while k < name.len()
                    invariant
                        k <= name.len(),
                        thumb@ == thumb_prefix() + name@.take(k as int),
                    decreases name.len() - k,
                {
                    thumb.push(name[k]);
                    assert(name@.take(k + 1) =~= name@.take(k as int).push(name@[k as int]));
                    k = k + 1;
                }
                assert(name@.take(name.len() as int) =~= name@);
                let replaced = replace_chars(&first, &name, &thumb);
                Some(from_chars(&replaced))
            },
        }
    } else {
        Some(images[0].clone())
    }
}

/// The format of the date line of a post.
pub open spec fn date_format() -> Seq<char> {
    "%Y-%m-%d %H:%M"@
}

/// The post that a file holds, as the blog reads it, or `None` where the file cannot be read
/// as one: fewer than three lines, a date line that is no date, or a preview image on the blog
/// whose address has no file name.
///
/// Line one is the title, line two the date, line three the tags; the rest is the content,
/// each line followed by a line feed.
pub open spec fn post_from_file(path: Seq<char>, raw: Seq<char>, blog_url: Seq<char>) -> Option<PostView> {
    let ls = lines(raw);
    if ls.len() < 3 {
        None
    } else {
        match datetime_timestamp(ls[1], date_format()) {
            None => None,
            Some(date) => {
                let content = join_lines(ls.skip(3));
                let words = tag_words(ls[2]);
                match preview_image(image_sources(markdown_html(content)), blog_url) {
                    None => None,
                    Some(image) => Some(PostView {
                        id: path_id(path),
                        title: ls[0],
                        date: date,
                        content: content,
                        slug: slug_of(ls[0], Seq::empty(), seq!['-'], None),
                        is_page: has_word(words, page_marker()),
                        tags: categories(words),
                        hide_from_robots: has_word(words, hide_marker()),
                        image: image,
                        path: path,
                        raw_content: raw,
                    }),
                }
            },
        }
    }
}

/// Reads the post stored at `path` with the text `raw_content`; `None` where the file cannot
/// be read as a post.
pub fn parse_post(path: String, raw_content: String, blog_url: &String) -> (post: Option<Post>)
    ensures
        match post {
            Some(p) => post_from_file(path@, raw_content@, blog_url@) == Some(p@),
            None => post_from_file(path@, raw_content@, blog_url@) is None,
        },
        post matches Some(p) ==> p.id@.len() == 32,
{
    let id = post_id(path.as_str());
    let raw = to_chars(raw_content.as_str());
    let ls = split_lines(&raw);
    let ghost all = seqs_of(ls@);
    if ls.len() < 3 {
        return None;
    }
    let title = from_chars(&ls[0]);
    let raw_date = from_chars(&ls[1]);
    let date = match parse_timestamp(raw_date.as_str(), "%Y-%m-%d %H:%M") {
        Some(d) => d,
        None => {
            return None;
        },
    };
    let (tags, hide_from_robots, is_page) = read_tag_line(&ls[2]);
    let content_chars = join_lines_from(&ls, 3);
    let content = from_chars(&content_chars);
    let sep = "-";
    let no_stop_words = "";
    proof {
        reveal_strlit("-");
        reveal_strlit("");
        assert(sep@ =~= seq!['-']);
        assert(no_stop_words@ =~= Seq::<char>::empty());
    }
    let slug = slugify_text(title.as_str(), no_stop_words, sep, None);
    let html = markdown_to_html(content.as_str());
    let images = images_in_html(html.as_str());
    let image = match preview_image_of(&images, blog_url) {
        Some(i) => i,
        None => {
            return None;
        },
    };
    let post = Post {
        id,
        title,
        date,
        content,
        slug,
        is_page,
        tags,
        hide_from_robots,
        image,
        path,
        raw_content,
    };
    proof {
        let ls_v = lines(raw_content@);
        assert(ls_v == all);
        assert(ls_v[1] == raw_date@);
    }
    assert(post@ == post_from_file(path@, raw_content@, blog_url@).unwrap());
    Some(post)
}

/// The views of a sequence of posts.
pub open spec fn post_views(s: Seq<Post>) -> Seq<PostView> {
    Seq::new(s.len(), |i: int| s[i]@)
}

/// `p` put into `s` after the last post not older than it.
pub open spec fn insert_by_date(s: Seq<PostView>, p: PostView) -> Seq<PostView>
    decreases s.len(),
{
    if s.len() == 0 || s.last().date >= p.date {
        s.push(p)
    } else {
        insert_by_date(s.drop_last(), p).push(s.last())
    }
}

/// The posts from the newest to the oldest; posts of the same date keep their order
/// (a stable sort by descending date).
pub open spec fn sort_by_date(s: Seq<PostView>) -> Seq<PostView>
    decreases s.len(),
{
    if s.len() == 0 {
        s
    } else {
        insert_by_date(sort_by_date(s.drop_last()), s.last())
    }
}

proof fn lemma_insert_by_date_at(s: Seq<PostView>, p: PostView, j: int)
    requires
        0 <= j <= s.len(),
        forall|m: int| j <= m < s.len() ==> (#[trigger] s[m]).date < p.date,
        j == 0 || s[j - 1].date >= p.date,
    ensures
        insert_by_date(s, p) == s.insert(j, p),
    decreases s.len(),
{
    if s.len() == 0 {
        assert(s.insert(j, p) =~= s.push(p));
    } else if s.last().date >= p.date {
        assert(s.insert(j, p) =~= s.push(p));
    } else {
        lemma_insert_by_date_at(s.drop_last(), p, j);
        assert(s.drop_last().insert(j, p).push(s.last()) =~= s.insert(j, p));
    }
}

/// Sorts posts from the newest to the oldest, keeping the order of posts of the same date.
pub fn sort_posts_by_date(posts: Vec<Post>) -> (sorted: Vec<Post>)
    ensures
        post_views(sorted@) == sort_by_date(post_views(posts@)),
{
    let ghost orig = post_views(posts@);
    let mut rest = posts;
    let mut out: Vec<Post> = Vec::new();
    let ghost mut k: int = 0;
    assert(orig.skip(0) =~= post_views(rest@));
    assert(orig.take(0) =~= Seq::<PostView>::empty());
    assert(post_views(out@) =~= Seq::<PostView>::empty());
    while rest.len() > 0
        invariant
            0 <= k <= orig.len(),
            k + rest.len() == orig.len(),
            post_views(rest@) == orig.skip(k),
            post_views(out@) == sort_by_date(orig.take(k)),
        decreases rest.len(),
    {
        let ghost rb = rest@;
        let p = rest.remove(0);
        assert(post_views(rb)[0] == orig.skip(k)[0]);
        assert(p@ == orig[k]);
        assert forall|m: int| 0 <= m < rest@.len() implies #[trigger] post_views(rest@)[m] == orig.skip(k + 1)[m] by {
            assert(rest@[m] == rb[m + 1]);
            assert(post_views(rb)[m + 1] == orig.skip(k)[m + 1]);
        }
        let mut j = out.len();
        while j > 0 && out[j - 1].date < p.date
            invariant
                j <= out.len(),
                forall|m: int| j <= m < out.len() ==> (#[trigger] out@[m]).date < p.date,
            decreases j,
        {
            j = j - 1;
        }
        let ghost before = post_views(out@);
        proof {
            assert forall|m: int| j <= m < before.len() implies (#[trigger] before[m]).date < p.date by {
                assert(before[m] == out@[m]@);
            }
            lemma_insert_by_date_at(before, p@, j as int);
            assert(orig.take(k + 1).drop_last() =~= orig.take(k));
        }
        out.insert(j, p);
        assert(post_views(out@) =~= before.insert(j as int, p@));
        assert(post_views(rest@) =~= orig.skip(k + 1));
        proof {
            k = k + 1;
        }
    }
    assert(orig.take(k) =~= orig);
    out
}

/// Whether `a` comes before `b` in lexicographic order of characters, which for UTF-8 text
/// is the byte order that `OsStr` compares by.
pub open spec fn lex_lt(a: Seq<char>, b: Seq<char>) -> bool
    decreases a.len(),
{
    if b.len() == 0 {
        false
    } else if a.len() == 0 {
        true
    } else if a[0] != b[0] {
        a[0] < b[0]
    } else {
        lex_lt(a.drop_first(), b.drop_first())
    }
}

/// Whether `a` comes before `b` in lexicographic order of characters.
pub fn chars_lt(a: &Vec<char>, b: &Vec<char>) -> (r: bool)
    ensures
        r == lex_lt(a@, b@),
{
    let mut i: usize = 0;
    assert(a@.skip(0) =~= a@);
    assert(b@.skip(0) =~= b@);
    while i < a.len() && i < b.len() && a[i] == b[i]
        invariant
            i <= a.len(),
            i <= b.len(),
            lex_lt(a@, b@) == lex_lt(a@.skip(i as int), b@.skip(i as int)),
        decreases a.len() - i,
    {
        assert(a@.skip(i as int).drop_first() =~= a@.skip(i + 1));
        assert(b@.skip(i as int).drop_first() =~= b@.skip(i + 1));
        i = i + 1;
    }
    assert(a@.skip(i as int).len() == 0 || a@.skip(i as int)[0] == a@[i as int]);
    assert(b@.skip(i as int).len() == 0 || b@.skip(i as int)[0] == b@[i as int]);
    if i == b.len() {
        false
    } else if i == a.len() {
        true
    } else {
        a[i] < b[i]
    }
}

/// A post file as read from the posts folder: its name there and its text.
pub struct PostFile {
    pub name: String,
    pub raw_content: String,
}

/// `f` put into `s` after the last file whose name does not come after its name.
pub open spec fn insert_by_name(s: Seq<PostFile>, f: PostFile) -> Seq<PostFile>
    decreases s.len(),
{
    if s.len() == 0 || !lex_lt(f.name@, s.last().name@) {
        s.push(f)
    } else {
        insert_by_name(s.drop_last(), f).push(s.last())
    }
}

/// The files in lexicographic order of their names; files of equal names keep their order
/// (a stable sort, as the folder's listing is sorted).
pub open spec fn sort_by_name(s: Seq<PostFile>) -> Seq<PostFile>
    decreases s.len(),
{
    if s.len() == 0 {
        s
    } else {
        insert_by_name(sort_by_name(s.drop_last()), s.last())
    }
}

proof fn lemma_insert_by_name_at(s: Seq<PostFile>, f: PostFile, j: int)
    requires
        0 <= j <= s.len(),
        forall|m: int| j <= m < s.len() ==> lex_lt(f.name@, (#[trigger] s[m]).name@),
        j == 0 || !lex_lt(f.name@, s[j - 1].name@),
    ensures
        insert_by_name(s, f) == s.insert(j, f),
    decreases s.len(),
{
    if s.len() == 0 {
        assert(s.insert(j, f) =~= s.push(f));
    } else if !lex_lt(f.name@, s.last().name@) {
        assert(s.insert(j, f) =~= s.push(f));
    } else {
        lemma_insert_by_name_at(s.drop_last(), f, j);
        assert(s.drop_last().insert(j, f).push(s.last()) =~= s.insert(j, f));
    }
}

/// Sorts post files by name, as the folder's listing is sorted before the posts are read.
pub fn sort_files_by_name(files: Vec<PostFile>) -> (sorted: Vec<PostFile>)
    ensures
        sorted@ == sort_by_name(files@),
{
    let ghost orig = files@;
    let mut rest = files;
    let mut out: Vec<PostFile> = Vec::new();
    let ghost mut k: int = 0;
    assert(orig.skip(0) =~= rest@);
    assert(orig.take(0) =~= Seq::<PostFile>::empty());
    while rest.len() > 0
        invariant
            0 <= k <= orig.len(),
            k + rest.len() == orig.len(),
            rest@ == orig.skip(k),
            out@ == sort_by_name(orig.take(k)),
        decreases rest.len(),
    {
        let f = rest.remove(0);
        assert(f == orig[k]);
        let f_chars = to_chars(f.name.as_str());
        let mut j = out.len();
        while j > 0 && chars_lt(&f_chars, &to_chars(out[j - 1].name.as_str()))
            invariant
                j <= out.len(),
                f_chars@ == f.name@,
                forall|m: int| j <= m < out.len() ==> lex_lt(f.name@, (#[trigger] out@[m]).name@),
            decreases j,
        {
            j = j - 1;
        }
        let ghost before = out@;
        proof {
            lemma_insert_by_name_at(before, f, j as int);
            assert(orig.take(k + 1).drop_last() =~= orig.take(k));
        }
        out.insert(j, f);
        assert(rest@ =~= orig.skip(k + 1));
        proof {
            k = k + 1;
        }
    }
    assert(orig.take(k) =~= orig);
    out
}

/// The posts that the files of the folder `folder` hold, in the files' order, each read
/// from the path of the file in the folder; `None` where one of them cannot be read as a post.
pub open spec fn posts_from_files(folder: Seq<char>, files: Seq<PostFile>, blog_url: Seq<char>) -> Option<
    Seq<PostView>,
>
    decreases files.len(),
{
    if files.len() == 0 {
        Some(Seq::empty())
    } else {
        match (
            posts_from_files(folder, files.drop_last(), blog_url),
            post_from_file(joined_path(folder, files.last().name@), files.last().raw_content@, blog_url),
        ) {
            (Some(ps), Some(p)) => Some(ps.push(p)),
            _ => None,
        }
    }
}

/// All posts of the blog, from the newest to the oldest, read from the regular files of the
/// posts folder `post_folder`: the files are taken in the order of their names, so posts of
/// the same date come in that order. `None` where a file cannot be read as a post (fewer than
/// three lines, a date line that is no date, or a preview image on the blog without a file
/// name): those are the folders on which the blog cannot start, and a caller that runs the blog
/// stops there.
pub fn get_posts(blog_context: &Blog, post_folder: &String, files: Vec<PostFile>) -> (posts: Option<
    Vec<Post>,
>)
    requires
        post_folder@.len() > 0,
        post_folder@.last() != '/',
    ensures
        match posts {
            Some(v) => posts_from_files(post_folder@, sort_by_name(files@), blog_context.url@) matches Some(
                ps,
            ) && post_views(v@) == sort_by_date(ps),
            None => posts_from_files(post_folder@, sort_by_name(files@), blog_context.url@) is None,
        },
        posts matches Some(v) ==> forall|i: int| 0 <= i < v.len() ==> (#[trigger] v@[i]).id@.len() == 32,
{
    let sorted = sort_files_by_name(files);
    let ghost orig = sorted@;
    let ghost url = blog_context.url@;
    let ghost folder = post_folder@;
    let mut rest = sorted;
    let mut read: Vec<Post> = Vec::new();
    let ghost mut k: int = 0;
    assert(orig.skip(0) =~= rest@);
    assert(orig.take(0) =~= Seq::<PostFile>::empty());
    assert(post_views(read@) =~= Seq::<PostView>::empty());
    while rest.len() > 0
        invariant
            url == blog_context.url@,
            folder == post_folder@,
            folder.len() > 0,
            folder.last() != '/',
            orig == sort_by_name(files@),
            0 <= k <= orig.len(),
            k + rest.len() == orig.len(),
            rest@ == orig.skip(k),
            posts_from_files(folder, orig.take(k), url) == Some(post_views(read@)),
            forall|i: int| 0 <= i < read.len() ==> (#[trigger] read@[i]).id@.len() == 32,
        decreases rest.len(),
    {
        let file = rest.remove(0);
        assert(file == orig[k]);
        assert(orig.take(k + 1).drop_last() =~= orig.take(k));
        assert(orig.take(k + 1).last() == orig[k]);
        assert(rest@ =~= orig.skip(k + 1));
        let ghost before = post_views(read@);
        let path = crate::pagination::path_join(post_folder, &file.name);
        match parse_post(path, file.raw_content, &blog_context.url) {
            Some(p) => {
                read.push(p);
                assert(post_views(read@) =~= before.push(p@));
            },
            None => {
                proof {
                    let t = orig.take(k + 1);
                    assert(posts_from_files(folder, t, url) is None);
                    lemma_posts_from_files_none(folder, orig, url, k + 1);
                }
                return None;
            },
        }
        proof {
            k = k + 1;
        }
    }
    assert(orig.take(k) =~= orig);
    let ghost read_views = post_views(read@);
    let result = sort_posts_by_date(read);
    proof {
        broadcast use vstd::seq_lib::group_to_multiset_ensures;

        law_sort_by_date(read_views, 0);
        let r = post_views(result@);
        assert forall|i: int| 0 <= i < result.len() implies (#[trigger] result@[i]).id@.len() == 32 by {
            assert(r[i] == result@[i]@);
            assert(r.contains(r[i]));
            assert(read_views.to_multiset().count(r[i]) > 0);
            assert(read_views.contains(r[i]));
            let m = choose|m: int| 0 <= m < read_views.len() && read_views[m] == r[i];
            assert(read_views[m] == read@[m]@);
        }
    }
    Some(result)
}

proof fn lemma_posts_from_files_none(folder: Seq<char>, files: Seq<PostFile>, blog_url: Seq<char>, n: int)
    requires
        0 <= n <= files.len(),
        posts_from_files(folder, files.take(n), blog_url) is None,
    ensures
        posts_from_files(folder, files, blog_url) is None,
    decreases files.len() - n,
{
    if n < files.len() {
        assert(files.take(n + 1).drop_last() =~= files.take(n));
        lemma_posts_from_files_none(folder, files, blog_url, n + 1);
    } else {
        assert(files.take(n) =~= files);
    }
}

/// The posts run from the newest to the oldest.
pub open spec fn newest_first(s: Seq<PostView>) -> bool {
    forall|i: int, j: int| 0 <= i < j < s.len() ==> s[i].date >= s[j].date
}

/// The posts of `s` with the date `date`, in order.
pub open spec fn dated(s: Seq<PostView>, date: i64) -> Seq<PostView>
    decreases s.len(),
{
    if s.len() == 0 {
        s
    } else if s.last().date == date {
        dated(s.drop_last(), date).push(s.last())
    } else {
        dated(s.drop_last(), date)
    }
}

proof fn lemma_insert_by_date(s: Seq<PostView>, p: PostView, date: i64)
    requires
        newest_first(s),
    ensures
        newest_first(insert_by_date(s, p)),
        insert_by_date(s, p).to_multiset() =~= s.to_multiset().insert(p),
        dated(insert_by_date(s, p), date) == if p.date == date {
            dated(s, date).push(p)
        } else {
            dated(s, date)
        },
    decreases s.len(),
{
    broadcast use vstd::seq_lib::group_to_multiset_ensures;

    if s.len() == 0 || s.last().date >= p.date {
        assert(s.push(p).drop_last() =~= s);
    } else {
        let rest = s.drop_last();
        assert(newest_first(rest));
        lemma_insert_by_date(rest, p, date);
        let r = insert_by_date(rest, p);
        assert(rest.push(s.last()) =~= s);
        assert forall|i: int| 0 <= i < r.len() implies (#[trigger] r[i]).date >= s.last().date by {
            assert(r.contains(r[i]));
            assert(r.to_multiset().count(r[i]) > 0);
            if r[i] != p {
                assert(rest.to_multiset().count(r[i]) > 0);
                assert(rest.contains(r[i]));
                let k = choose|k: int| 0 <= k < rest.len() && rest[k] == r[i];
                assert(s[k] == rest[k]);
            }
        }
        assert(r.push(s.last()).drop_last() =~= r);
    }
}

/// Sorting by date puts the posts from the newest to the oldest, keeps every post (as
/// many times as it was there), and keeps the order of posts of the same date.
pub proof fn law_sort_by_date(s: Seq<PostView>, date: i64)
    ensures
        newest_first(sort_by_date(s)),
        sort_by_date(s).to_multiset() == s.to_multiset(),
        dated(sort_by_date(s), date) == dated(s, date),
    decreases s.len(),
{
    broadcast use vstd::seq_lib::group_to_multiset_ensures;

    if s.len() > 0 {
        law_sort_by_date(s.drop_last(), date);
        lemma_insert_by_date(sort_by_date(s.drop_last()), s.last(), date);
        assert(s.drop_last().push(s.last()) =~= s);
    } else {
        assert(sort_by_date(s) =~= s);
    }
}

proof fn lemma_lex_lt_asymmetric(a: Seq<char>, b: Seq<char>)
    ensures
        lex_lt(a, b) ==> !lex_lt(b, a),
    decreases a.len(),
{
    if a.len() > 0 && b.len() > 0 && a[0] == b[0] {
        lemma_lex_lt_asymmetric(a.drop_first(), b.drop_first());
    }
}

proof fn lemma_lex_lt_total(a: Seq<char>, b: Seq<char>)
    ensures
        lex_lt(a, b) || lex_lt(b, a) || a == b,
    decreases a.len(),
{
    if a.len() > 0 && b.len() > 0 && a[0] == b[0] {
        lemma_lex_lt_total(a.drop_first(), b.drop_first());
        if a.drop_first() == b.drop_first() {
            assert(a.len() == a.drop_first().len() + 1);
            assert(b.len() == b.drop_first().len() + 1);
            assert forall|i: int| 0 <= i < a.len() implies a[i] == b[i] by {
                if i > 0 {
                    assert(a[i] == a.drop_first()[i - 1]);
                    assert(b[i] == b.drop_first()[i - 1]);
                }
            }
            assert(a =~= b);
        }
    } else if a.len() == 0 && b.len() == 0 {
        assert(a =~= b);
    }
}

proof fn lemma_lex_lt_transitive(a: Seq<char>, b: Seq<char>, c: Seq<char>)
    requires
        lex_lt(a, b),
        lex_lt(b, c),
    ensures
        lex_lt(a, c),
    decreases a.len(),
{
    if a.len() > 0 && b.len() > 0 && c.len() > 0 && a[0] == b[0] && b[0] == c[0] {
        lemma_lex_lt_transitive(a.drop_first(), b.drop_first(), c.drop_first());
    }
}

/// The files run in lexicographic order of their names.
pub open spec fn in_name_order(s: Seq<PostFile>) -> bool {
    forall|i: int, j: int| 0 <= i < j < s.len() ==> !lex_lt(s[j].name@, s[i].name@)
}

proof fn lemma_insert_by_name(s: Seq<PostFile>, f: PostFile)
    requires
        in_name_order(s),
    ensures
        in_name_order(insert_by_name(s, f)),
        insert_by_name(s, f).to_multiset() =~= s.to_multiset().insert(f),
    decreases s.len(),
{
    broadcast use vstd::seq_lib::group_to_multiset_ensures;

    if s.len() == 0 || !lex_lt(f.name@, s.last().name@) {
        let r = s.push(f);
        assert(r.drop_last() =~= s);
        assert forall|i: int, j: int| 0 <= i < j < r.len() implies !lex_lt(r[j].name@, r[i].name@) by {
            if j == s.len() && i < s.len() - 1 {
                if lex_lt(f.name@, s[i].name@) {
                    lemma_lex_lt_total(f.name@, s.last().name@);
                    if lex_lt(s.last().name@, f.name@) {
                        lemma_lex_lt_transitive(s.last().name@, f.name@, s[i].name@);
                    }
                }
            }
        }
    } else {
        let rest = s.drop_last();
        assert(in_name_order(rest));
        lemma_insert_by_name(rest, f);
        let r = insert_by_name(rest, f);
        assert(rest.push(s.last()) =~= s);
        assert forall|i: int| 0 <= i < r.len() implies !lex_lt(s.last().name@, (#[trigger] r[i]).name@) by {
            assert(r.contains(r[i]));
            assert(r.to_multiset().count(r[i]) > 0);
            if r[i] != f {
                assert(rest.to_multiset().count(r[i]) > 0);
                assert(rest.contains(r[i]));
                let k = choose|k: int| 0 <= k < rest.len() && rest[k] == r[i];
                assert(s[k] == rest[k]);
            } else {
                lemma_lex_lt_asymmetric(f.name@, s.last().name@);
            }
        }
        assert(r.push(s.last()).drop_last() =~= r);
    }
}

/// Sorting post files by name puts them in lexicographic order of their names and keeps
/// every file.
pub proof fn law_sort_by_name(s: Seq<PostFile>)
    ensures
        in_name_order(sort_by_name(s)),
        sort_by_name(s).to_multiset() == s.to_multiset(),
    decreases s.len(),
{
    broadcast use vstd::seq_lib::group_to_multiset_ensures;

    if s.len() > 0 {
        law_sort_by_name(s.drop_last());
        lemma_insert_by_name(sort_by_name(s.drop_last()), s.last());
        assert(s.drop_last().push(s.last()) =~= s);
    } else {
        assert(sort_by_name(s) =~= s);
    }
}

/// The markers `hide`, `page` and `post` never become categories; every other word of the
/// tag line does, in order.
pub proof fn law_categories_exclude_markers(words: Seq<Seq<char>>)
    ensures
        forall|i: int| 0 <= i < categories(words).len() ==> {
            &&& #[trigger] categories(words)[i] != hide_marker()
            &&& categories(words)[i] != page_marker()
            &&& categories(words)[i] != post_marker()
            &&& words.contains(categories(words)[i])
        },
    decreases words.len(),
{
    if words.len() > 0 {
        law_categories_exclude_markers(words.drop_last());
        let prev = categories(words.drop_last());
        assert forall|i: int| 0 <= i < categories(words).len() implies {
            &&& #[trigger] categories(words)[i] != hide_marker()
            &&& categories(words)[i] != page_marker()
            &&& categories(words)[i] != post_marker()
            &&& words.contains(categories(words)[i])
        } by {
            if i < prev.len() {
                assert(categories(words)[i] == prev[i]);
                let k = choose|k: int| 0 <= k < words.drop_last().len() && words.drop_last()[k] == prev[i];
                assert(words[k] == prev[i]);
            } else {
                assert(words[words.len() - 1] == categories(words)[i]);
            }
        }
    }
}

proof fn lemma_posts_from_files_paths(folder: Seq<char>, files: Seq<PostFile>, blog_url: Seq<char>, ps: Seq<PostView>)
    requires
        posts_from_files(folder, files, blog_url) == Some(ps),
    ensures
        ps.len() == files.len(),
        forall|k: int| 0 <= k < ps.len() ==> (#[trigger] ps[k]).path == joined_path(folder, files[k].name@),
        forall|k: int| 0 <= k < ps.len() ==> post_from_file(joined_path(folder, files[k].name@), files[k].raw_content@, blog_url) == Some(#[trigger] ps[k]),
    decreases files.len(),
{
    if files.len() > 0 {
        let prev = posts_from_files(folder, files.drop_last(), blog_url).unwrap();
        lemma_posts_from_files_paths(folder, files.drop_last(), blog_url, prev);
        assert forall|k: int| 0 <= k < ps.len() implies (#[trigger] ps[k]).path == joined_path(folder, files[k].name@)
            && post_from_file(joined_path(folder, files[k].name@), files[k].raw_content@, blog_url) == Some(ps[k]) by {
            if k < prev.len() {
                assert(ps[k] == prev[k]);
                assert(files[k] == files.drop_last()[k]);
            }
        }
    }
}

proof fn lemma_lex_lt_common_prefix(p: Seq<char>, a: Seq<char>, b: Seq<char>)
    ensures
        lex_lt(p + a, p + b) == lex_lt(a, b),
    decreases p.len(),
{
    if p.len() == 0 {
        assert(p + a =~= a);
        assert(p + b =~= b);
    } else {
        assert((p + a).drop_first() =~= p.drop_first() + a);
        assert((p + b).drop_first() =~= p.drop_first() + b);
        lemma_lex_lt_common_prefix(p.drop_first(), a, b);
    }
}

/// The posts run in lexicographic order of their paths.
pub open spec fn in_path_order(s: Seq<PostView>) -> bool {
    forall|i: int, j: int| 0 <= i < j < s.len() ==> !lex_lt(s[j].path, s[i].path)
}

proof fn lemma_dated_members(s: Seq<PostView>, date: i64)
    ensures
        forall|a: int| 0 <= a < dated(s, date).len() ==> exists|k: int| 0 <= k < s.len() && s[k] == #[trigger] dated(s, date)[a],
    decreases s.len(),
{
    if s.len() > 0 {
        let prev = dated(s.drop_last(), date);
        lemma_dated_members(s.drop_last(), date);
        assert forall|a: int| 0 <= a < dated(s, date).len() implies exists|k: int| 0 <= k < s.len() && s[k] == #[trigger] dated(s, date)[a] by {
            if a < prev.len() {
                assert(dated(s, date)[a] == prev[a]);
                let k = choose|k: int| 0 <= k < s.drop_last().len() && s.drop_last()[k] == prev[a];
                assert(s[k] == prev[a]);
            } else {
                assert(s[s.len() - 1] == dated(s, date)[a]);
            }
        }
    }
}

proof fn lemma_dated_in_path_order(s: Seq<PostView>, date: i64)
    requires
        in_path_order(s),
    ensures
        in_path_order(dated(s, date)),
    decreases s.len(),
{
    if s.len() > 0 {
        let rest = s.drop_last();
        assert(in_path_order(rest));
        lemma_dated_in_path_order(rest, date);
        lemma_dated_members(rest, date);
        let prev = dated(rest, date);
        if s.last().date == date {
            let r = prev.push(s.last());
            assert forall|i: int, j: int| 0 <= i < j < r.len() implies !lex_lt(r[j].path, r[i].path) by {
                if j == prev.len() {
                    assert(r[i] == prev[i]);
                    let k = choose|k: int| 0 <= k < rest.len() && rest[k] == #[trigger] prev[i];
                    assert(s[k] == rest[k]);
                } else {
                    assert(r[i] == prev[i] && r[j] == prev[j]);
                }
            }
        }
    }
}

proof fn lemma_dated_has(s: Seq<PostView>, date: i64, i: int)
    requires
        0 <= i < s.len(),
        s[i].date == date,
    ensures
        exists|a: int| 0 <= a < dated(s, date).len() && #[trigger] dated(s, date)[a] == s[i],
    decreases s.len(),
{
    let prev = dated(s.drop_last(), date);
    if i == s.len() - 1 {
        assert(dated(s, date)[prev.len() as int] == s[i]);
    } else {
        lemma_dated_has(s.drop_last(), date, i);
        let a = choose|a: int| 0 <= a < prev.len() && #[trigger] prev[a] == s.drop_last()[i];
        assert(dated(s, date)[a] == prev[a]);
    }
}

proof fn lemma_dated_positions(s: Seq<PostView>, date: i64, i: int, j: int)
    requires
        0 <= i < j < s.len(),
        s[i].date == date,
        s[j].date == date,
    ensures
        exists|a: int, b: int| 0 <= a < b < dated(s, date).len() && #[trigger] dated(s, date)[a] == s[i]
            && #[trigger] dated(s, date)[b] == s[j],
    decreases s.len(),
{
    let rest = s.drop_last();
    let prev = dated(rest, date);
    if j == s.len() - 1 {
        lemma_dated_has(rest, date, i);
        let a = choose|a: int| 0 <= a < prev.len() && #[trigger] prev[a] == rest[i];
        assert(dated(s, date)[a] == s[i]);
        assert(dated(s, date)[prev.len() as int] == s[j]);
    } else {
        lemma_dated_positions(rest, date, i, j);
        let (a, b) = choose|a: int, b: int| 0 <= a < b < prev.len() && #[trigger] prev[a] == rest[i] && #[trigger] prev[b] == rest[j];
        assert(dated(s, date)[a] == s[i]);
        assert(dated(s, date)[b] == s[j]);
    }
}

/// Reading a posts folder gives one post for each file, each at the file's path in the
/// folder, from the newest to the oldest, and posts of the same date in the order of their
/// paths, which is the order of the files' names. File names in a folder do not begin with a
/// slash.
pub proof fn law_posts_one_per_file_in_order(
    folder: Seq<char>,
    files: Seq<PostFile>,
    blog_url: Seq<char>,
    ps: Seq<PostView>,
)
    requires
        folder.len() > 0,
        folder.last() != '/',
        forall|k: int| 0 <= k < files.len() ==> !(files[k].name@.len() > 0 && #[trigger] files[k].name@[0] == '/'),
        posts_from_files(folder, sort_by_name(files), blog_url) == Some(ps),
    ensures
        newest_first(sort_by_date(ps)),
        sort_by_date(ps).len() == files.len(),
        forall|k: int| #![trigger files[k]] 0 <= k < files.len() ==> exists|i: int| 0 <= i < sort_by_date(ps).len()
            && (#[trigger] sort_by_date(ps)[i]).path == joined_path(folder, files[k].name@),
        forall|i: int, j: int| 0 <= i < j < sort_by_date(ps).len() && sort_by_date(ps)[i].date == sort_by_date(ps)[j].date
            ==> !lex_lt(sort_by_date(ps)[j].path, sort_by_date(ps)[i].path),
{
    broadcast use vstd::seq_lib::group_to_multiset_ensures;

    let sorted = sort_by_name(files);
    let r = sort_by_date(ps);
    law_sort_by_name(files);
    law_sort_by_date(ps, 0);
    lemma_posts_from_files_paths(folder, sorted, blog_url, ps);
    assert(sorted.to_multiset().len() == sorted.len());
    assert(files.to_multiset().len() == files.len());
    assert(r.to_multiset().len() == r.len());
    assert(ps.to_multiset().len() == ps.len());
    // the posts, read in name order, run in path order
    assert forall|i: int, j: int| 0 <= i < j < ps.len() implies !lex_lt(ps[j].path, ps[i].path) by {
        assert(sorted.contains(sorted[i]));
        assert(files.to_multiset().count(sorted[i]) > 0);
        assert(files.contains(sorted[i]));
        let ki = choose|k: int| 0 <= k < files.len() && files[k] == sorted[i];
        assert(sorted.contains(sorted[j]));
        assert(files.to_multiset().count(sorted[j]) > 0);
        assert(files.contains(sorted[j]));
        let kj = choose|k: int| 0 <= k < files.len() && files[k] == sorted[j];
        assert(!(files[ki].name@.len() > 0 && files[ki].name@[0] == '/'));
        assert(!(files[kj].name@.len() > 0 && files[kj].name@[0] == '/'));
        lemma_lex_lt_common_prefix(folder.push('/'), sorted[j].name@, sorted[i].name@);
    }
    assert(in_path_order(ps));
    // every file gives a post
    assert forall|k: int| #![trigger files[k]] 0 <= k < files.len() implies exists|i: int| 0 <= i < r.len()
        && (#[trigger] r[i]).path == joined_path(folder, files[k].name@) by {
        assert(files.contains(files[k]));
        assert(sorted.to_multiset().count(files[k]) > 0);
        assert(sorted.contains(files[k]));
        let m = choose|m: int| 0 <= m < sorted.len() && sorted[m] == files[k];
        assert(ps.contains(ps[m]));
        assert(r.to_multiset().count(ps[m]) > 0);
        assert(r.contains(ps[m]));
        let i = choose|i: int| 0 <= i < r.len() && r[i] == ps[m];
        assert(r[i].path == joined_path(folder, files[k].name@));
    }
    // posts of one date keep the path order
    assert forall|i: int, j: int| 0 <= i < j < r.len() && r[i].date == r[j].date implies !lex_lt(r[j].path, r[i].path) by {
        let d = r[i].date;
        law_sort_by_date(ps, d);
        lemma_dated_in_path_order(ps, d);
        lemma_dated_positions(r, d, i, j);
        let (a, b) = choose|a: int, b: int| 0 <= a < b < dated(r, d).len() && #[trigger] dated(r, d)[a] == r[i]
            && #[trigger] dated(r, d)[b] == r[j];
        assert(dated(ps, d)[a] == r[i]);
        assert(dated(ps, d)[b] == r[j]);
    }
}

/// Each post read from a posts folder comes from one of its files: its path is the file's
/// path in the folder and its id the MD5 of that path in hexadecimal; the file has at least
/// three lines; the title is the first line; the categories, the `hide` and `page` flags come
/// from the third line; the content is the rest, each line followed by a line feed; and the
/// preview image follows the rule of `preview_image` over the images of the content's HTML.
pub proof fn law_each_post_read_from_its_file(
    folder: Seq<char>,
    files: Seq<PostFile>,
    blog_url: Seq<char>,
    ps: Seq<PostView>,
    i: int,
)
    requires
        posts_from_files(folder, sort_by_name(files), blog_url) == Some(ps),
        0 <= i < sort_by_date(ps).len(),
    ensures
        exists|k: int| #![trigger files[k]] 0 <= k < files.len() && {
            let p = sort_by_date(ps)[i];
            let f = files[k];
            let ls = lines(f.raw_content@);
            &&& ls.len() >= 3
            &&& p.path == joined_path(folder, f.name@)
            &&& p.id == path_id(p.path)
            &&& p.title == ls[0]
            &&& datetime_timestamp(ls[1], date_format()) == Some(p.date)
            &&& p.tags == categories(tag_words(ls[2]))
            &&& p.hide_from_robots == has_word(tag_words(ls[2]), hide_marker())
            &&& p.is_page == has_word(tag_words(ls[2]), page_marker())
            &&& p.content == join_lines(ls.skip(3))
            &&& preview_image(image_sources(markdown_html(p.content)), blog_url) == Some(p.image)
            &&& p.raw_content == f.raw_content@
        },
{
    broadcast use vstd::seq_lib::group_to_multiset_ensures;

    let sorted = sort_by_name(files);
    let r = sort_by_date(ps);
    law_sort_by_name(files);
    law_sort_by_date(ps, 0);
    lemma_posts_from_files_paths(folder, sorted, blog_url, ps);
    assert(r.contains(r[i]));
    assert(ps.to_multiset().count(r[i]) > 0);
    assert(ps.contains(r[i]));
    let m = choose|m: int| 0 <= m < ps.len() && ps[m] == r[i];
    assert(ps.to_multiset().len() == ps.len());
    assert(sorted.to_multiset().len() == sorted.len());
    assert(sorted.contains(sorted[m]));
    assert(files.to_multiset().count(sorted[m]) > 0);
    assert(files.contains(sorted[m]));
    let k = choose|k: int| 0 <= k < files.len() && files[k] == sorted[m];
    assert(post_from_file(joined_path(folder, sorted[m].name@), sorted[m].raw_content@, blog_url) == Some(ps[m]));
}

/// Joining keeps every line, an empty one too: adding a line `l` at the end adds exactly
/// `l` and one line feed, and no lines give no text.
pub proof fn law_join_lines_keeps_every_line(ls: Seq<Seq<char>>, l: Seq<char>)
    ensures
        join_lines(Seq::<Seq<char>>::empty()) == Seq::<char>::empty(),
        join_lines(ls.push(l)) == join_lines(ls) + l + seq!['\n'],
        join_lines(ls.push(l)).len() == join_lines(ls).len() + l.len() + 1,
{
    assert(ls.push(l).drop_last() =~= ls);
    assert(l.push('\n') =~= l + seq!['\n']);
    assert(join_lines(ls) + l.push('\n') =~= join_lines(ls) + l + seq!['\n']);
}

/// A post's content is every line of its file after the third, each followed by a line
/// feed, empty lines included: one more line after them adds exactly that line and a line
/// feed.
pub proof fn law_content_keeps_empty_lines(raw: Seq<char>, extra: Seq<Seq<char>>, l: Seq<char>)
    requires
        lines(raw).len() >= 3,
    ensures
        join_lines((lines(raw) + extra.push(l)).skip(3)) == join_lines((lines(raw) + extra).skip(3)) + l
            + seq!['\n'],
{
    let a = lines(raw) + extra;
    assert((lines(raw) + extra.push(l)).skip(3) =~= a.skip(3).push(l));
    law_join_lines_keeps_every_line(a.skip(3), l);
}

/// A name is allowed whenever it ends with `.png`, `.jpeg`, `.gif` or `.jpg`, whatever
/// characters come before; and only then.
pub proof fn law_extension_decides(n: Seq<char>, name: Seq<char>)
    ensures
        allowed_extension(n + seq!['.', 'p', 'n', 'g']),
        allowed_extension(n + seq!['.', 'j', 'p', 'e', 'g']),
        allowed_extension(n + seq!['.', 'g', 'i', 'f']),
        allowed_extension(n + seq!['.', 'j', 'p', 'g']),
        allowed_extension(name) ==> exists|m: Seq<char>| #![trigger m.len()] {
            ||| name == m + seq!['.', 'p', 'n', 'g']
            ||| name == m + seq!['.', 'j', 'p', 'e', 'g']
            ||| name == m + seq!['.', 'g', 'i', 'f']
            ||| name == m + seq!['.', 'j', 'p', 'g']
        },
{
    assert((n + seq!['.', 'p', 'n', 'g']).skip(n.len() as int) =~= seq!['.', 'p', 'n', 'g']);
    assert((n + seq!['.', 'j', 'p', 'e', 'g']).skip(n.len() as int) =~= seq!['.', 'j', 'p', 'e', 'g']);
    assert((n + seq!['.', 'g', 'i', 'f']).skip(n.len() as int) =~= seq!['.', 'g', 'i', 'f']);
    assert((n + seq!['.', 'j', 'p', 'g']).skip(n.len() as int) =~= seq!['.', 'j', 'p', 'g']);
    if allowed_extension(name) {
        if ends_with(name, seq!['.', 'p', 'n', 'g']) {
            let m = name.take(name.len() - 4);
            assert(name =~= m + seq!['.', 'p', 'n', 'g']);
            assert(m.len() == m.len());
        } else if ends_with(name, seq!['.', 'j', 'p', 'e', 'g']) {
            let m = name.take(name.len() - 5);
            assert(name =~= m + seq!['.', 'j', 'p', 'e', 'g']);
            assert(m.len() == m.len());
        } else if ends_with(name, seq!['.', 'g', 'i', 'f']) {
            let m = name.take(name.len() - 4);
            assert(name =~= m + seq!['.', 'g', 'i', 'f']);
            assert(m.len() == m.len());
        } else {
            let m = name.take(name.len() - 4);
            assert(name =~= m + seq!['.', 'j', 'p', 'g']);
            assert(m.len() == m.len());
        }
    }
}

} // verus!
