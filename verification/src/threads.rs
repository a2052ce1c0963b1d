//! Threads posts, read straight off the public profile pages: Meta embeds the timeline as JSON in
//! `<script data-sjs>` blocks, and posts live in arrays named `thread_items`.
use vstd::prelude::*;
use crate::text::{append_chars, append_str, chars_of, find_from, first_index, lemma_first_index, lower_ascii, slice_chars, split_chars, split_on, starts_with, string_of, to_lower_ascii};
use crate::state::strings_view;
use crate::json::{decoded_json, get, json_get, opt_get, parse_json, Json};

verus! {

pub const THREADS: &'static str = "https://www.threads.com";

/// Embed fixer: swapping the host makes Discord render the post.
pub const FIXTHREADS: &'static str = "https://fixthreads.seria.moe";

#[derive(Clone, Debug, PartialEq, Eq)]
pub struct Post {
    pub code: String,
    pub taken_at: i64,
    pub url: String,
}

pub struct PostView {
    pub code: Seq<char>,
    pub taken_at: i64,
    pub url: Seq<char>,
}

impl View for Post {
    type V = PostView;

    open spec fn view(&self) -> PostView {
        PostView { code: self.code@, taken_at: self.taken_at, url: self.url@ }
    }
}

pub open spec fn post_url_of(user: Seq<char>, code: Seq<char>) -> Seq<char> {
    "https://fixthreads.seria.moe"@ + "/@"@ + user + "/post/"@ + code
}

/// The link posted to Discord.
pub fn post_url(user: &str, code: &str) -> (r: String)
    ensures
        r@ == post_url_of(user@, code@),
{
    let mut v: Vec<char> = Vec::new();
    append_str(&mut v, FIXTHREADS);
    append_str(&mut v, "/@");
    append_str(&mut v, user);
    append_str(&mut v, "/post/");
    append_str(&mut v, code);
    string_of(v.as_slice())
}

/// The body of one `<script ...>` piece: `None` unless its attributes mention `data-sjs`;
/// the body ends at the first `</script>` (Meta escapes `</` inside the JSON, so that tag is
/// unambiguous).
pub open spec fn block_of(chunk: Seq<char>) -> Option<Seq<char>> {
    match first_index(chunk, seq!['>']) {
        None => None,
        Some(i) => {
            let attrs = chunk.take(i);
            let body = chunk.skip(i + 1);
            if first_index(attrs, "data-sjs"@) is None {
                None
            } else {
                match first_index(body, "</script>"@) {
                    Some(j) => Some(body.take(j)),
                    None => Some(body),
                }
            }
        },
    }
}

pub open spec fn blocks_of(chunks: Seq<Seq<char>>) -> Seq<Seq<char>>
    decreases chunks.len(),
{
    if chunks.len() == 0 {
        Seq::empty()
    } else {
        match block_of(chunks.last()) {
            Some(b) => blocks_of(chunks.drop_last()).push(b),
            None => blocks_of(chunks.drop_last()),
        }
    }
}

/// Bodies of the `<script ... data-sjs ...>` tags of a page, in order.
pub open spec fn script_blocks_of(html: Seq<char>) -> Seq<Seq<char>> {
    blocks_of(split_on(html, "<script"@).drop_first())
}

fn lit(s: &str) -> (r: Vec<char>)
    ensures
        r@ == s@,
{
    chars_of(s)
}

fn block_of_chars(chunk: &Vec<char>) -> (r: Option<Vec<char>>)
    ensures
        match r {
            Some(b) => block_of(chunk@) == Some(b@),
            None => block_of(chunk@) is None,
        },
{
    let gt = lit(">");
    proof { reveal_strlit(">"); }
    assert(gt@ =~= seq!['>']);
    assert(chunk@.skip(0) =~= chunk@);
    match find_from(chunk, 0, &gt) {
        None => None,
        Some(i) => {
            proof { lemma_first_index(chunk@, seq!['>']); }
            let attrs = slice_chars(chunk, 0, i);
            assert(attrs@ =~= chunk@.take(i as int));
            let sjs = lit("data-sjs");
            proof { reveal_strlit("data-sjs"); }
            assert(attrs@.skip(0) =~= attrs@);
            if find_from(&attrs, 0, &sjs).is_none() {
                return None;
            }
            assert(i + 1 <= chunk@.len());
            let n = chunk.len();
            let body = slice_chars(chunk, i + 1, n);
            assert(body@ =~= chunk@.skip(i + 1));
            let end = lit("</script>");
            proof { reveal_strlit("</script>"); }
            assert(body@.skip(0) =~= body@);
            match find_from(&body, 0, &end) {
                Some(j) => {
                    proof { lemma_first_index(body@, "</script>"@); }
                    let b = slice_chars(&body, 0, j);
                    assert(b@ =~= body@.take(j as int));
                    Some(b)
                },
                None => Some(body),
            }
        },
    }
}

/// Bodies of `<script ... data-sjs ...>` tags.
pub fn script_blocks(html: &str) -> (r: Vec<String>)
    ensures
        strings_view(r@) == script_blocks_of(html@),
{
    let cs = chars_of(html);
    let pat = lit("<script");
    proof { reveal_strlit("<script"); }
    let pieces = split_chars(&cs, &pat);
    let ghost chunks = split_on(html@, "<script"@).drop_first();
    let mut r: Vec<String> = Vec::new();
    let mut i: usize = 1;
    proof {
        lemma_split_nonempty(html@, "<script"@);
    }
    assert(chunks.take(0) =~= Seq::<Seq<char>>::empty());
    while i < pieces.len()
        invariant
            1 <= i <= pieces@.len(),
            pieces@.map_values(|v: Vec<char>| v@) == split_on(html@, "<script"@),
            chunks == split_on(html@, "<script"@).drop_first(),
            strings_view(r@) == blocks_of(chunks.take(i - 1)),
        decreases pieces@.len() - i,
    {
        assert(chunks.take(i as int).drop_last() =~= chunks.take(i - 1));
        assert(chunks.take(i as int).last() == pieces@[i as int]@);
        match block_of_chars(&pieces[i]) {
            Some(b) => {
                let ghost before = strings_view(r@);
                r.push(string_of(b.as_slice()));
                assert(strings_view(r@) =~= before.push(b@));
            },
            None => {},
        }
        i = i + 1;
    }
    assert(chunks.take(i - 1) =~= chunks);
    r
}

proof fn lemma_split_nonempty(s: Seq<char>, pat: Seq<char>)
    ensures
        split_on(s, pat).len() >= 1,
    decreases s.len(),
{
    if pat.len() > 0 {
        match first_index(s, pat) {
            Some(i) => {
                lemma_first_index(s, pat);
                lemma_split_nonempty(s.skip(i + pat.len()), pat);
            },
            None => {},
        }
    }
}

/// Why a Threads page yields no posts.
#[derive(Clone, Copy, Debug, PartialEq, Eq, Structural)]
pub enum ExtractError {
    /// A timeline script block is not valid JSON.
    InvalidJson,
    /// No timeline data in the page.
    NoTimeline,
}

impl ExtractError {
    pub fn message(&self) -> (r: String)
        ensures
            r@ == (match self {
                ExtractError::InvalidJson => "timeline data in page is not valid JSON"@,
                ExtractError::NoTimeline => "no timeline data in page (login wall or page format changed?)"@,
            }),
    {
        match self {
            ExtractError::InvalidJson => "timeline data in page is not valid JSON".to_owned(),
            ExtractError::NoTimeline => "no timeline data in page (login wall or page format changed?)".to_owned(),
        }
    }
}

/// Whether a post quotes nothing but reposts another post.
pub open spec fn is_repost(p: Json) -> bool {
    match opt_get(opt_get(json_get(p, "text_post_app_info"@), "share_info"@), "reposted_post"@) {
        Some(Json::Null) => false,
        Some(_) => true,
        None => false,
    }
}

/// The link for a post: its canonical URL moved to the embed fixer, or one built from author and code.
pub open spec fn link_of(p: Json, author: Seq<char>, code: Seq<char>) -> Seq<char> {
    match json_get(p, "canonical_url"@) {
        Some(Json::Str(u)) => if starts_with(u@, "https://www.threads.com/"@) {
            "https://fixthreads.seria.moe"@ + "/"@ + u@.skip(24)
        } else {
            post_url_of(author, code)
        },
        _ => post_url_of(author, code),
    }
}

/// The post a `thread_items` entry holds, if it is by `user` (ASCII case ignored) and is not a
/// repost of someone else's post.
pub open spec fn post_of(item: Json, user: Seq<char>) -> Option<PostView> {
    match json_get(item, "post"@) {
        None => None,
        Some(p) => match opt_get(json_get(p, "user"@), "username"@) {
            Some(Json::Str(author)) => if lower_ascii(author@) != lower_ascii(user) || is_repost(p) {
                None
            } else {
                match (json_get(p, "code"@), json_get(p, "taken_at"@)) {
                    (Some(Json::Str(code)), Some(Json::Number(Some(t)))) => Some(
                        PostView { code: code@, taken_at: t, url: link_of(p, author@, code@) },
                    ),
                    _ => None,
                }
            },
            _ => None,
        },
    }
}

pub open spec fn has_code(out: Seq<PostView>, code: Seq<char>) -> bool {
    exists|i: int| 0 <= i < out.len() && out[i].code == code
}

/// The posts of a `thread_items` array added to `out`, skipping codes already there.
pub open spec fn add_posts(items: Seq<Json>, user: Seq<char>, out: Seq<PostView>) -> Seq<PostView>
    decreases items.len(),
{
    if items.len() == 0 {
        out
    } else {
        let o = add_posts(items.drop_last(), user, out);
        match post_of(items.last(), user) {
            Some(p) => if has_code(o, p.code) { o } else { o.push(p) },
            None => o,
        }
    }
}

/// Whether an object holds `mediaData.edges` as an empty array: the timeline of an account
/// without posts.
pub open spec fn empty_media(v: Json) -> bool {
    match opt_get(json_get(v, "mediaData"@), "edges"@) {
        Some(Json::Array(a)) => a@.len() == 0,
        _ => false,
    }
}

/// Walks a JSON value: every `thread_items` array adds its posts, objects first and then their
/// members in order, arrays element by element. The flag says whether any timeline was found.
pub open spec fn walk_value(v: Json, user: Seq<char>, out: Seq<PostView>) -> (bool, Seq<PostView>)
    decreases v,
{
    match v {
        Json::Object(m) => {
            let (f1, o1) = match json_get(v, "thread_items"@) {
                Some(Json::Array(items)) => (true, add_posts(items@, user, out)),
                _ => (empty_media(v), out),
            };
            let (f2, o2) = walk_fields(m@, user, o1);
            (f1 || f2, o2)
        },
        Json::Array(a) => walk_items(a@, user, out),
        _ => (false, out),
    }
}

pub open spec fn walk_items(items: Seq<Json>, user: Seq<char>, out: Seq<PostView>) -> (bool, Seq<PostView>)
    decreases items,
{
    if items.len() == 0 {
        (false, out)
    } else {
        let (f1, o1) = walk_items(items.drop_last(), user, out);
        let (f2, o2) = walk_value(items.last(), user, o1);
        (f1 || f2, o2)
    }
}

pub open spec fn walk_fields(fields: Seq<(String, Json)>, user: Seq<char>, out: Seq<PostView>) -> (bool, Seq<PostView>)
    decreases fields,
{
    if fields.len() == 0 {
        (false, out)
    } else {
        let (f1, o1) = walk_fields(fields.drop_last(), user, out);
        let (f2, o2) = walk_value(fields.last().1, user, o1);
        (f1 || f2, o2)
    }
}

fn has_code_exec(out: &Vec<Post>, code: &str) -> (r: bool)
    ensures
        r == has_code(out@.map_values(|p: Post| p@), code@),
{
    let ghost ov = out@.map_values(|p: Post| p@);
    let mut i: usize = 0;
    while i < out.len()
        invariant
            i <= out@.len(),
            ov == out@.map_values(|p: Post| p@),
            forall|k: int| 0 <= k < i ==> ov[k].code != code@,
        decreases out@.len() - i,
    {
        assert(ov[i as int] == out@[i as int]@);
        if crate::text::str_eq(out[i].code.as_str(), code) {
            return true;
        }
        i = i + 1;
    }
    false
}

fn link_exec(p: &Json, author: &str, code: &str) -> (r: String)
    ensures
        r@ == link_of(*p, author@, code@),
{
    match get(p, "canonical_url") {
        Some(Json::Str(u)) => {
            let uc = chars_of(u.as_str());
            let prefix = lit("https://www.threads.com/");
            proof { reveal_strlit("https://www.threads.com/"); }
            assert(uc@.skip(0) =~= uc@);
            if crate::text::matches_at(&uc, 0, &prefix) {
                let mut v = lit("https://fixthreads.seria.moe/");
                proof {
                    reveal_strlit("https://fixthreads.seria.moe/");
                    reveal_strlit("https://fixthreads.seria.moe");
                    reveal_strlit("/");
                    assert(v@ =~= "https://fixthreads.seria.moe"@ + "/"@);
                }
                let n = uc.len();
                let rest = slice_chars(&uc, 24, n);
                append_chars(&mut v, &rest);
                assert(rest@ =~= u@.skip(24));
                string_of(v.as_slice())
            } else {
                post_url(author, code)
            }
        },
        _ => post_url(author, code),
    }
}

fn post_exec(item: &Json, user: &str, ul: &Vec<char>) -> (r: Option<Post>)
    requires
        ul@ == lower_ascii(user@),
    ensures
        match r {
            Some(p) => post_of(*item, user@) == Some(p@),
            None => post_of(*item, user@) is None,
        },
{
    let p = match get(item, "post") {
        Some(p) => p,
        None => return None,
    };
    let author: &String = match get(p, "user") {
        Some(u) => match get(u, "username") {
            Some(Json::Str(a)) => a,
            _ => return None,
        },
        None => return None,
    };
    let al = to_lower_ascii(&chars_of(author.as_str()));
    if !same_chars(&al, ul) {
        return None;
    }
    let reposted = match get(p, "text_post_app_info") {
        Some(t) => match get(t, "share_info") {
            Some(si) => match get(si, "reposted_post") {
                Some(Json::Null) => false,
                Some(_) => true,
                None => false,
            },
            None => false,
        },
        None => false,
    };
    if reposted {
        return None;
    }
    match (get(p, "code"), get(p, "taken_at")) {
        (Some(Json::Str(code)), Some(Json::Number(Some(t)))) => {
            let url = link_exec(p, author.as_str(), code.as_str());
            Some(Post { code: code.clone(), taken_at: *t, url })
        },
        _ => None,
    }
}

fn same_chars(a: &Vec<char>, b: &Vec<char>) -> (r: bool)
    ensures
        r == (a@ == b@),
{
    if a.len() != b.len() {
        return false;
    }
    let mut i: usize = 0;
    while i < a.len()
        invariant
            i <= a@.len(),
            a@.len() == b@.len(),
            forall|k: int| 0 <= k < i ==> a@[k] == b@[k],
        decreases a@.len() - i,
    {
        if a[i] != b[i] {
            return false;
        }
        i = i + 1;
    }
    assert(a@ =~= b@);
    true
}

pub open spec fn posts_of(out: Seq<Post>) -> Seq<PostView> {
    out.map_values(|p: Post| p@)
}

fn add_posts_exec(items: &Vec<Json>, user: &str, ul: &Vec<char>, out: &mut Vec<Post>)
    requires
        ul@ == lower_ascii(user@),
    ensures
        posts_of(final(out)@) == add_posts(items@, user@, posts_of(old(out)@)),
{
    let ghost o0 = posts_of(out@);
    let mut i: usize = 0;
    assert(items@.take(0) =~= Seq::<Json>::empty());
    while i < items.len()
        invariant
            i <= items@.len(),
            ul@ == lower_ascii(user@),
            posts_of(out@) == add_posts(items@.take(i as int), user@, o0),
        decreases items@.len() - i,
    {
        assert(items@.take(i as int + 1).drop_last() =~= items@.take(i as int));
        assert(items@.take(i as int + 1).last() == items@[i as int]);
        match post_exec(&items[i], user, ul) {
            Some(p) => {
                if !has_code_exec(out, p.code.as_str()) {
                    let ghost before = posts_of(out@);
                    let ghost pv = p@;
                    out.push(p);
                    assert(posts_of(out@) =~= before.push(pv));
                }
            },
            None => {},
        }
        i = i + 1;
    }
    assert(items@.take(i as int) =~= items@);
}

fn empty_media_exec(v: &Json) -> (r: bool)
    ensures
        r == empty_media(*v),
{
    match get(v, "mediaData") {
        Some(m) => match get(m, "edges") {
            Some(Json::Array(a)) => a.len() == 0,
            _ => false,
        },
        None => false,
    }
}

/// Collects into `out` the posts by `user` of every `thread_items` array within `v`; true when
/// `v` holds a timeline.
fn walk(v: &Json, user: &str, ul: &Vec<char>, out: &mut Vec<Post>) -> (found: bool)
    requires
        ul@ == lower_ascii(user@),
    ensures
        (found, posts_of(final(out)@)) == walk_value(*v, user@, posts_of(old(out)@)),
    decreases v,
{
    match v {
        Json::Object(m) => {
            let mut found = match get(v, "thread_items") {
                Some(Json::Array(items)) => {
                    add_posts_exec(items, user, ul, out);
                    true
                },
                _ => empty_media_exec(v),
            };
            let ghost o1 = posts_of(out@);
            let ghost f1 = found;
            let mut i: usize = 0;
            assert(m@.take(0) =~= Seq::<(String, Json)>::empty());
            while i < m.len()
                invariant
                    i <= m@.len(),
                    *v == Json::Object(*m),
                    ul@ == lower_ascii(user@),
                    (found, posts_of(out@)) == ({
                        let (f2, o2) = walk_fields(m@.take(i as int), user@, o1);
                        (f1 || f2, o2)
                    }),
                decreases m@.len() - i,
            {
                assert(m@.take(i as int + 1).drop_last() =~= m@.take(i as int));
                assert(m@.take(i as int + 1).last() == m@[i as int]);
                assert(decreases_to!(*v => (*v)->Object_0));
                assert((*v)->Object_0 == *m);
                assert(decreases_to!(*m => m@));
                assert(decreases_to!(m@ => m@[i as int]));
                assert(decreases_to!(m@[i as int] => m@[i as int].1));
                assert(decreases_to!(*v => m@[i as int].1));
                let f = walk(&m[i].1, user, ul, out);
                found = found || f;
                i = i + 1;
            }
            assert(m@.take(i as int) =~= m@);
            found
        },
        Json::Array(a) => {
            let mut found = false;
            let ghost o0 = posts_of(out@);
            let mut i: usize = 0;
            assert(a@.take(0) =~= Seq::<Json>::empty());
            while i < a.len()
                invariant
                    i <= a@.len(),
                    *v == Json::Array(*a),
                    ul@ == lower_ascii(user@),
                    (found, posts_of(out@)) == walk_items(a@.take(i as int), user@, o0),
                decreases a@.len() - i,
            {
                assert(a@.take(i as int + 1).drop_last() =~= a@.take(i as int));
                assert(a@.take(i as int + 1).last() == a@[i as int]);
                assert(decreases_to!(*v => (*v)->Array_0));
                assert((*v)->Array_0 == *a);
                assert(decreases_to!(*a => a@));
                assert(decreases_to!(a@ => a@[i as int]));
                assert(decreases_to!(*v => a@[i as int]));
                let f = walk(&a[i], user, ul, out);
                found = found || f;
                i = i + 1;
            }
            assert(a@.take(i as int) =~= a@);
            found
        },
        _ => false,
    }
}

/// A script block that may hold the timeline.
pub open spec fn is_timeline_block(b: Seq<char>) -> bool {
    first_index(b, "thread_items"@) is Some || first_index(b, "\"mediaData\""@) is Some
}

pub open spec fn timeline_blocks(bs: Seq<Seq<char>>) -> Seq<Seq<char>>
    decreases bs.len(),
{
    if bs.len() == 0 {
        Seq::empty()
    } else if is_timeline_block(bs.last()) {
        timeline_blocks(bs.drop_last()).push(bs.last())
    } else {
        timeline_blocks(bs.drop_last())
    }
}

/// Walks the blocks in order; nothing where one of them is not JSON.
pub open spec fn extract_fold(blocks: Seq<Seq<char>>, user: Seq<char>) -> Option<(bool, Seq<PostView>)>
    decreases blocks.len(),
{
    if blocks.len() == 0 {
        Some((false, Seq::empty()))
    } else {
        match extract_fold(blocks.drop_last(), user) {
            None => None,
            Some((f, out)) => match decoded_json(blocks.last()) {
                None => None,
                Some(v) => {
                    let (f2, o2) = walk_value(v, user, out);
                    Some((f || f2, o2))
                },
            },
        }
    }
}

/// The posts by `user` on a page, in page order and each code once; an error where a timeline
/// block is not JSON or the page holds no timeline at all.
pub open spec fn extract_spec(html: Seq<char>, user: Seq<char>) -> Result<Seq<PostView>, ExtractError> {
    match extract_fold(timeline_blocks(script_blocks_of(html)), user) {
        None => Err(ExtractError::InvalidJson),
        Some((found, out)) => if found { Ok(out) } else { Err(ExtractError::NoTimeline) },
    }
}

fn contains_chars(s: &Vec<char>, pat: &str) -> (r: bool)
    requires
        pat@.len() > 0,
    ensures
        r == (first_index(s@, pat@) is Some),
{
    let p = lit(pat);
    assert(s@.skip(0) =~= s@);
    find_from(s, 0, &p).is_some()
}

/// Posts authored by `user` in one page. Reposts of other people's posts are dropped (they are not
/// the account's own content); replies and quotes are kept. Pages also carry other people's posts
/// (the conversation around a reply), hence the author filter.
pub fn extract(html: &str, user: &str) -> (r: Result<Vec<Post>, ExtractError>)
    ensures
        match r {
            Ok(ps) => extract_spec(html@, user@) == Ok::<Seq<PostView>, ExtractError>(posts_of(ps@)),
            Err(e) => extract_spec(html@, user@) == Err::<Seq<PostView>, ExtractError>(e),
        },
{
    let blocks = script_blocks(html);
    let ghost bs = strings_view(blocks@);
    let ul = to_lower_ascii(&chars_of(user));
    let mut out: Vec<Post> = Vec::new();
    let mut found = false;
    let mut i: usize = 0;
    proof {
        reveal_strlit("thread_items");
        reveal_strlit("\"mediaData\"");
    }
    assert(bs.take(0) =~= Seq::<Seq<char>>::empty());
    assert(posts_of(out@) =~= Seq::<PostView>::empty());
    while i < blocks.len()
        invariant
            i <= blocks@.len(),
            bs == strings_view(blocks@),
            bs == script_blocks_of(html@),
            ul@ == lower_ascii(user@),
            "thread_items"@.len() > 0,
            "\"mediaData\""@.len() > 0,
            extract_fold(timeline_blocks(bs.take(i as int)), user@) == Some((found, posts_of(out@))),
        decreases blocks@.len() - i,
    {
        let b = &blocks[i];
        assert(bs.take(i as int + 1).drop_last() =~= bs.take(i as int));
        assert(bs.take(i as int + 1).last() == b@);
        let bc = chars_of(b.as_str());
        let ghost tb = timeline_blocks(bs.take(i as int));
        if contains_chars(&bc, "thread_items") || contains_chars(&bc, "\"mediaData\"") {
            assert(is_timeline_block(b@));
            assert(timeline_blocks(bs.take(i as int + 1)) == tb.push(b@));
            assert(tb.push(b@).drop_last() =~= tb);
            match parse_json(b.as_str()) {
                None => {
                    proof {
                        assert(extract_fold(tb.push(b@), user@) is None);
                        lemma_timeline_prefix(bs, i as int + 1, bs.len() as int);
                        assert(bs.take(bs.len() as int) =~= bs);
                        assert(script_blocks_of(html@) == bs);
                        lemma_fold_fails(timeline_blocks(bs.take(i as int + 1)), timeline_blocks(bs), user@);
                    }
                    return Err(ExtractError::InvalidJson);
                },
                Some(v) => {
                    let f = walk(&v, user, &ul, &mut out);
                    found = found || f;
                },
            }
        }
        else {
            assert(timeline_blocks(bs.take(i as int + 1)) == tb);
        }
        i = i + 1;
    }
    assert(bs.take(i as int) =~= bs);
    if !found {
        return Err(ExtractError::NoTimeline);
    }
    Ok(out)
}

proof fn lemma_fold_fails(a: Seq<Seq<char>>, b: Seq<Seq<char>>, user: Seq<char>)
    requires
        extract_fold(a, user) is None,
        a.len() <= b.len(),
        b.take(a.len() as int) == a,
    ensures
        extract_fold(b, user) is None,
    decreases b.len() - a.len(),
{
    if b.len() == a.len() {
        assert(b =~= a);
    } else {
        assert(b.drop_last().take(a.len() as int) =~= a);
        lemma_fold_fails(a, b.drop_last(), user);
    }
}

proof fn lemma_timeline_prefix(bs: Seq<Seq<char>>, n: int, m: int)
    requires
        0 <= n <= m <= bs.len(),
    ensures
        timeline_blocks(bs.take(n)).len() <= timeline_blocks(bs.take(m)).len(),
        timeline_blocks(bs.take(m)).take(timeline_blocks(bs.take(n)).len() as int) == timeline_blocks(bs.take(n)),
    decreases m - n,
{
    if m == n {
        assert(timeline_blocks(bs.take(m)).take(timeline_blocks(bs.take(n)).len() as int) =~= timeline_blocks(bs.take(n)));
    } else {
        lemma_timeline_prefix(bs, n, m - 1);
        assert(bs.take(m).drop_last() =~= bs.take(m - 1));
        let a = timeline_blocks(bs.take(n));
        let b = timeline_blocks(bs.take(m - 1));
        assert(timeline_blocks(bs.take(m)).take(a.len() as int) =~= b.take(a.len() as int));
    }
}

/// The posts of `ps`, each code once (its first occurrence kept).
pub open spec fn unique_codes(ps: Seq<PostView>) -> Seq<PostView>
    decreases ps.len(),
{
    if ps.len() == 0 {
        Seq::empty()
    } else if has_code(unique_codes(ps.drop_last()), ps.last().code) {
        unique_codes(ps.drop_last())
    } else {
        unique_codes(ps.drop_last()).push(ps.last())
    }
}

/// Where a post taken at `t` goes in `s`: after the leading posts taken no later than `t`.
pub open spec fn insert_pos(s: Seq<PostView>, t: i64) -> nat
    decreases s.len(),
{
    if s.len() == 0 || s[0].taken_at > t {
        0
    } else {
        1 + insert_pos(s.drop_first(), t)
    }
}

/// `ps` sorted by the time each post was taken, keeping the page order among equal times
/// (`sort_by_key` is stable).
pub open spec fn by_time(ps: Seq<PostView>) -> Seq<PostView>
    decreases ps.len(),
{
    if ps.len() == 0 {
        Seq::empty()
    } else {
        let s = by_time(ps.drop_last());
        s.insert(insert_pos(s, ps.last().taken_at) as int, ps.last())
    }
}

pub open spec fn pages_posts(pages: Seq<Vec<Post>>) -> Seq<PostView>
    decreases pages.len(),
{
    if pages.len() == 0 {
        Seq::empty()
    } else {
        pages_posts(pages.drop_last()) + posts_of(pages.last()@)
    }
}

proof fn lemma_insert_pos_bound(s: Seq<PostView>, t: i64)
    ensures
        insert_pos(s, t) <= s.len(),
        forall|k: int| 0 <= k < insert_pos(s, t) ==> s[k].taken_at <= t,
        insert_pos(s, t) < s.len() ==> s[insert_pos(s, t) as int].taken_at > t,
    decreases s.len(),
{
    if s.len() > 0 && s[0].taken_at <= t {
        lemma_insert_pos_bound(s.drop_first(), t);
        assert forall|k: int| 0 <= k < insert_pos(s, t) implies s[k].taken_at <= t by {
            if k > 0 {
                assert(s[k] == s.drop_first()[k - 1]);
            }
        }
    }
}

/// Own posts of several pages, each code once, oldest first.
pub fn merge_pages(pages: &Vec<Vec<Post>>) -> (r: Vec<Post>)
    ensures
        posts_of(r@) == by_time(unique_codes(pages_posts(pages@))),
{
    let mut all: Vec<Post> = Vec::new();
    let mut i: usize = 0;
    assert(pages@.take(0) =~= Seq::<Vec<Post>>::empty());
    while i < pages.len()
        invariant
            i <= pages@.len(),
            posts_of(all@) == unique_codes(pages_posts(pages@.take(i as int))),
        decreases pages@.len() - i,
    {
        let page = &pages[i];
        assert(pages@.take(i as int + 1).drop_last() =~= pages@.take(i as int));
        let ghost base = pages_posts(pages@.take(i as int));
        let ghost pv = posts_of(page@);
        let mut k: usize = 0;
        assert(base + pv.take(0) =~= base);
        while k < page.len()
            invariant
                k <= page@.len(),
                pv == posts_of(page@),
                posts_of(all@) == unique_codes(base + pv.take(k as int)),
            decreases page@.len() - k,
        {
            assert((base + pv.take(k as int + 1)).drop_last() =~= base + pv.take(k as int));
            assert((base + pv.take(k as int + 1)).last() == page@[k as int]@);
            if !has_code_exec(&all, page[k].code.as_str()) {
                let ghost before = posts_of(all@);
                let q = &page[k];
                let p = Post { code: q.code.clone(), taken_at: q.taken_at, url: q.url.clone() };
                all.push(p);
                assert(posts_of(all@) =~= before.push(page@[k as int]@));
            }
            k = k + 1;
        }
        assert(pv.take(k as int) =~= pv);
        assert(pages_posts(pages@.take(i as int + 1)) == base + pv);
        i = i + 1;
    }
    assert(pages@.take(i as int) =~= pages@);
    let ghost u = posts_of(all@);
    let mut out: Vec<Post> = Vec::new();
    let mut i: usize = 0;
    assert(u.take(0) =~= Seq::<PostView>::empty());
    while i < all.len()
        invariant
            i <= all@.len(),
            u == posts_of(all@),
            posts_of(out@) == by_time(u.take(i as int)),
        decreases all@.len() - i,
    {
        let x = &all[i];
        assert(u.take(i as int + 1).drop_last() =~= u.take(i as int));
        assert(u.take(i as int + 1).last() == x@);
        let ghost sv = posts_of(out@);
        let mut pos: usize = 0;
        assert(sv.skip(0) =~= sv);
        while pos < out.len() && out[pos].taken_at <= x.taken_at
            invariant
                pos <= out@.len(),
                sv == posts_of(out@),
                insert_pos(sv, x.taken_at) == pos + insert_pos(sv.skip(pos as int), x.taken_at),
            decreases out@.len() - pos,
        {
            assert(sv.skip(pos as int)[0] == out@[pos as int]@);
            assert(sv.skip(pos as int).drop_first() =~= sv.skip(pos as int + 1));
            pos = pos + 1;
        }
        proof {
            if pos < out@.len() {
                assert(sv.skip(pos as int)[0] == out@[pos as int]@);
            }
        }
        out.insert(pos, Post { code: x.code.clone(), taken_at: x.taken_at, url: x.url.clone() });
        assert(posts_of(out@) =~= sv.insert(pos as int, x@));
        i = i + 1;
    }
    assert(u.take(i as int) =~= u);
    out
}

/// The merged posts come oldest first.
pub proof fn law_posts_oldest_first(ps: Seq<PostView>)
    ensures
        forall|i: int, j: int| 0 <= i < j < by_time(ps).len() ==> by_time(ps)[i].taken_at <= by_time(ps)[j].taken_at,
    decreases ps.len(),
{
    if ps.len() > 0 {
        law_posts_oldest_first(ps.drop_last());
        let s = by_time(ps.drop_last());
        let x = ps.last();
        let p = insert_pos(s, x.taken_at) as int;
        lemma_insert_pos_bound(s, x.taken_at);
        let r = s.insert(p, x);
        assert(r == by_time(ps));
        assert forall|i: int, j: int| 0 <= i < j < r.len() implies r[i].taken_at <= r[j].taken_at by {
            if j < p {
                assert(r[i] == s[i] && r[j] == s[j]);
            } else if j == p {
                assert(r[i] == s[i]);
            } else if i < p {
                assert(r[i] == s[i] && r[j] == s[j - 1]);
            } else if i == p {
                assert(r[j] == s[j - 1]);
                assert(s[p].taken_at <= s[j - 1].taken_at || p == j - 1);
            } else {
                assert(r[i] == s[i - 1] && r[j] == s[j - 1]);
            }
        }
    }
}

} // verus!
