//! Steam Workshop: request URLs and bodies, reading the browse pages
//! (through `scraper`) and the Web API answers (through `serde_json`), and
//! the state of the Workshop browser panel.
use vstd::prelude::*;
use crate::html::{
    compile_selector, html_attr, html_matches, html_matches_under, html_text, node_attr, node_text,
    parse_html, select_nodes, select_nodes_under, selector_accepts, Css, HtmlDoc,
};
use crate::json::{
    array_of, as_array, as_str, element, get_element, get_member, json_error_message, json_parse,
    member, parsed_json, str_of, Json,
};
use crate::text::{
    decimal, find_chars, find_first, occurs_at, is_alnum, parse_u64, parse_u64_spec, push_chars,
    push_decimal, push_str, str_eq, string_of, to_chars, trim, trim_str,
};

verus! {

/// The Steam application id of RimWorld.
pub const APP_ID: u64 = 294100;

/// The browser identity sent with Workshop requests.
pub const USER_AGENT: &'static str = "Mozilla/5.0 (X11; Linux x86_64) AppleWebKit/537.36 (KHTML, like Gecko) Chrome/122.0.0.0 Safari/537.36";

// ─── Items ───────────────────────────────────────────────────────────────────

/// A mod as listed by the Workshop.
#[derive(Debug, Clone, PartialEq)]
pub struct WorkshopItem {
    pub id: u64,
    pub title: String,
    pub author: String,
    pub preview_url: String,
}

/// A collection as listed by the Workshop.
#[derive(Debug, Clone, PartialEq)]
pub struct CollectionItem {
    pub id: u64,
    pub title: String,
    pub author: String,
    pub preview_url: String,
}

/// How a Workshop listing is sorted.
#[derive(Debug, Clone, Copy, PartialEq, Eq, Structural)]
pub enum SortOrder {
    Trending,
    Latest,
    MostSubscribed,
    RecentlyUpdated,
}

/// The `browsesort` parameter of a sort order.
pub open spec fn sort_param(s: SortOrder) -> Seq<char> {
    match s {
        SortOrder::Trending => "trend"@,
        SortOrder::Latest => "mostrecent"@,
        SortOrder::MostSubscribed => "totaluniquesubscriptions"@,
        SortOrder::RecentlyUpdated => "lastupdated"@,
    }
}

/// The caption of a sort order.
pub open spec fn sort_label(s: SortOrder) -> Seq<char> {
    match s {
        SortOrder::Trending => "Популярные"@,
        SortOrder::Latest => "Новые"@,
        SortOrder::MostSubscribed => "По подпискам"@,
        SortOrder::RecentlyUpdated => "Обновлённые"@,
    }
}

impl SortOrder {
    /// The `browsesort` parameter Steam expects.
    pub fn as_param(self) -> (r: &'static str)
        ensures
            r@ == sort_param(self),
    {
        match self {
            SortOrder::Trending => "trend",
            SortOrder::Latest => "mostrecent",
            SortOrder::MostSubscribed => "totaluniquesubscriptions",
            SortOrder::RecentlyUpdated => "lastupdated",
        }
    }

    /// The caption shown for this order.
    pub fn label(self) -> (r: &'static str)
        ensures
            r@ == sort_label(self),
    {
        match self {
            SortOrder::Trending => "Популярные",
            SortOrder::Latest => "Новые",
            SortOrder::MostSubscribed => "По подпискам",
            SortOrder::RecentlyUpdated => "Обновлённые",
        }
    }

    /// Every sort order, in menu order.
    pub fn all() -> (r: Vec<SortOrder>)
        ensures
            r@ == seq![
                SortOrder::Trending,
                SortOrder::Latest,
                SortOrder::MostSubscribed,
                SortOrder::RecentlyUpdated,
            ],
    {
        let mut v: Vec<SortOrder> = Vec::new();
        v.push(SortOrder::Trending);
        v.push(SortOrder::Latest);
        v.push(SortOrder::MostSubscribed);
        v.push(SortOrder::RecentlyUpdated);
        assert(v@ =~= seq![
            SortOrder::Trending,
            SortOrder::Latest,
            SortOrder::MostSubscribed,
            SortOrder::RecentlyUpdated,
        ]);
        v
    }
}

// ─── URL encoding ────────────────────────────────────────────────────────────

/// Bytes kept as they are: ASCII letters, digits and `-_.~`.
pub open spec fn unreserved(b: u8) -> bool {
    (65 <= b && b <= 90) || (97 <= b && b <= 122) || (48 <= b && b <= 57) || b == 45 || b == 95
        || b == 46 || b == 126
}

/// An upper-case hexadecimal digit.
pub open spec fn hex_char(n: nat) -> char {
    if n < 10 {
        ((n + 48) as u32) as char
    } else {
        ((n + 55) as u32) as char
    }
}

/// How one byte is written: a space as `+`, an unreserved byte as itself,
/// any other byte as `%` and two upper-case hex digits.
pub open spec fn encode_byte(b: u8) -> Seq<char> {
    if b == 32 {
        seq!['+']
    } else if unreserved(b) {
        seq![(b as u32) as char]
    } else {
        seq!['%', hex_char((b / 16) as nat), hex_char((b % 16) as nat)]
    }
}

/// The form encoding of a byte string.
pub open spec fn url_encoded(bytes: Seq<u8>) -> Seq<char>
    decreases bytes.len(),
{
    if bytes.len() == 0 {
        Seq::<char>::empty()
    } else {
        url_encoded(bytes.drop_last()) + encode_byte(bytes.last())
    }
}

fn hex_digit(n: u8) -> (c: char)
    requires
        n < 16,
    ensures
        c == hex_char(n as nat),
{
    if n < 10 {
        let c = (n + 48) as char;
        assert(c == ((n + 48) as u32) as char);
        c
    } else {
        let c = (n + 55) as char;
        assert(c == ((n + 55) as u32) as char);
        c
    }
}

/// Encodes the UTF-8 bytes of `s` for a URL query: spaces as `+`, letters,
/// digits and `-_.~` kept, every other byte as `%XX`.
pub fn url_encode(s: &str) -> (r: String)
    ensures
        r@ == url_encoded(vstd::utf8::encode_utf8(s@)),
{
    let bytes = s.as_bytes();
    let mut out: Vec<char> = Vec::new();
    let mut i: usize = 0;
    while i < bytes.len()
        invariant
            i <= bytes.len(),
            bytes@ == vstd::utf8::encode_utf8(s@),
            out@ == url_encoded(bytes@.take(i as int)),
        decreases bytes.len() - i,
    {
        let b = bytes[i];
        let ghost before = out@;
        if b == 32 {
            out.push('+');
        } else if (65 <= b && b <= 90) || (97 <= b && b <= 122) || (48 <= b && b <= 57) || b == 45
            || b == 95 || b == 46 || b == 126 {
            let c = b as char;
            assert(c == (b as u32) as char);
            out.push(c);
        } else {
            out.push('%');
            out.push(hex_digit(b / 16));
            out.push(hex_digit(b % 16));
        }
        proof {
            let t = bytes@.take(i + 1);
            assert(t.drop_last() =~= bytes@.take(i as int));
            assert(t.last() == b);
            assert(out@ =~= before + encode_byte(b));
        }
        i = i + 1;
    }
    assert(bytes@.take(bytes.len() as int) =~= bytes@);
    let mut r = String::new();
    push_chars(&mut r, &out);
    assert(Seq::<char>::empty() + out@ =~= out@);
    r
}

/// A character the encoding may produce.
pub open spec fn url_safe_char(c: char) -> bool {
    is_alnum(c) || c == '-' || c == '_' || c == '.' || c == '~' || c == '+' || c == '%'
}

proof fn lemma_encode_byte_safe(b: u8)
    ensures
        forall|k: int| 0 <= k < encode_byte(b).len() ==> url_safe_char(#[trigger] encode_byte(b)[k]),
{
    if b != 32 && unreserved(b) {
        vstd::utf8::char_u32_cast(((b as u32) as char), b as u32);
        assert(((b as u32) as char) as u32 == b as u32);
    }
    if b != 32 && !unreserved(b) {
        let hi = (b / 16) as nat;
        let lo = (b % 16) as nat;
        assert(hi < 16 && lo < 16);
        assert(((hex_char(hi)) as u32) == if hi < 10 { hi + 48 } else { hi + 55 });
        assert(((hex_char(lo)) as u32) == if lo < 10 { lo + 48 } else { lo + 55 });
    }
}

/// The encoding produces only letters, digits, `-_.~`, `+` and `%`.
pub proof fn lemma_url_encoded_safe(bytes: Seq<u8>)
    ensures
        forall|k: int| 0 <= k < url_encoded(bytes).len() ==> url_safe_char(#[trigger] url_encoded(bytes)[k]),
    decreases bytes.len(),
{
    if bytes.len() > 0 {
        lemma_url_encoded_safe(bytes.drop_last());
        lemma_encode_byte_safe(bytes.last());
        let a = url_encoded(bytes.drop_last());
        let b = encode_byte(bytes.last());
        assert forall|k: int| 0 <= k < (a + b).len() implies url_safe_char(#[trigger] (a + b)[k]) by {
            if k < a.len() {
                assert((a + b)[k] == a[k]);
            } else {
                assert((a + b)[k] == b[k - a.len()]);
            }
        }
    }
}

/// A character the encoding keeps as it is.
pub open spec fn plain_url_char(c: char) -> bool {
    is_alnum(c) || c == '-' || c == '_' || c == '.' || c == '~'
}

proof fn lemma_url_encoded_plain_bytes(b: Seq<u8>, s: Seq<char>)
    requires
        b.len() == s.len(),
        forall|i: int| 0 <= i < s.len() ==> plain_url_char(#[trigger] s[i]),
        forall|i: int| 0 <= i < s.len() ==> #[trigger] b[i] == s[i] as u8,
    ensures
        url_encoded(b) == s,
    decreases s.len(),
{
    if s.len() > 0 {
        let n = s.len() - 1;
        lemma_url_encoded_plain_bytes(b.drop_last(), s.drop_last());
        let c = s[n as int];
        assert(plain_url_char(c));
        assert(b.last() == c as u8);
        vstd::utf8::char_u32_cast(c, c as u32);
        assert((c as u32) < 128);
        assert(((c as u8) as u32) == (c as u32));
        assert(encode_byte(b.last()) == seq![c]);
        assert(s =~= s.drop_last() + seq![c]);
    }
}

proof fn char_below(c: char)
    requires
        (c as u32) <= 127,
    ensures
        '\0' <= c && c <= '\u{7f}',
{
}

/// The encoding leaves text made of letters, digits and `-_.~` as it is.
pub proof fn lemma_url_encode_plain(s: Seq<char>)
    requires
        forall|i: int| 0 <= i < s.len() ==> plain_url_char(#[trigger] s[i]),
    ensures
        url_encoded(vstd::utf8::encode_utf8(s)) == s,
{
    assert(vstd::utf8::is_ascii_chars(s)) by {
        assert forall|i: int| 0 <= i < s.len() implies ('\0' <= #[trigger] s[i] && s[i] <= '\u{7f}') by {
            let c = s[i];
            assert(plain_url_char(c));
            assert((c as u32) <= 127);
            char_below(c);
        }
    }
    vstd::utf8::is_ascii_chars_encode_utf8(s);
    lemma_url_encoded_plain_bytes(vstd::utf8::encode_utf8(s), s);
}

/// The value of a hexadecimal digit written by [`hex_char`].
pub open spec fn hex_value(c: char) -> int {
    if (c as u32) <= 57 {
        (c as u32) - 48
    } else {
        (c as u32) - 55
    }
}

/// Form decoding: `+` is a space, `%XY` the byte of hex digits `XY`, any
/// other character the byte of its code.
pub open spec fn url_decoded(s: Seq<char>) -> Seq<u8>
    decreases s.len(),
{
    if s.len() == 0 {
        Seq::<u8>::empty()
    } else if s[0] == '+' {
        seq![32u8] + url_decoded(s.skip(1))
    } else if s[0] == '%' && s.len() >= 3 {
        seq![(hex_value(s[1]) * 16 + hex_value(s[2])) as u8] + url_decoded(s.skip(3))
    } else {
        seq![(s[0] as u32) as u8] + url_decoded(s.skip(1))
    }
}

proof fn lemma_encoded_front(b: Seq<u8>)
    requires
        b.len() > 0,
    ensures
        url_encoded(b) == encode_byte(b[0]) + url_encoded(b.skip(1)),
    decreases b.len(),
{
    if b.len() == 1 {
        assert(b.drop_last() =~= Seq::<u8>::empty());
        assert(b.skip(1) =~= Seq::<u8>::empty());
        assert(url_encoded(b) =~= encode_byte(b[0]) + url_encoded(b.skip(1)));
    } else {
        let d = b.drop_last();
        lemma_encoded_front(d);
        assert(d.skip(1) =~= b.skip(1).drop_last());
        assert(b.skip(1).last() == b.last());
        assert(url_encoded(b.skip(1)) == url_encoded(b.skip(1).drop_last()) + encode_byte(
            b.skip(1).last(),
        ));
        assert(url_encoded(b) =~= encode_byte(b[0]) + url_encoded(b.skip(1)));
    }
}

proof fn lemma_hex_roundtrip(n: nat)
    requires
        n < 16,
    ensures
        hex_value(hex_char(n)) == n,
{
    if n < 10 {
        assert((hex_char(n) as u32) == n + 48);
    } else {
        assert((hex_char(n) as u32) == n + 55);
    }
}

proof fn lemma_decode_unit(x: u8, rest: Seq<char>)
    ensures
        url_decoded(encode_byte(x) + rest) == seq![x] + url_decoded(rest),
{
    let e = encode_byte(x);
    let t = e + rest;
    if x == 32 {
        assert(t[0] == '+');
        assert(t.skip(1) =~= rest);
    } else if unreserved(x) {
        let c = (x as u32) as char;
        assert((c as u32) == x as u32);
        assert(t[0] == c);
        assert(t.skip(1) =~= rest);
        assert(((c as u32) as u8) == x);
    } else {
        let hi = (x / 16) as nat;
        let lo = (x % 16) as nat;
        lemma_hex_roundtrip(hi);
        lemma_hex_roundtrip(lo);
        assert(t[0] == '%' && t[1] == hex_char(hi) && t[2] == hex_char(lo));
        assert(t.skip(3) =~= rest);
        assert((hi * 16 + lo) as u8 == x);
    }
}

/// Decoding the form encoding gives the bytes back: `+` is read as the
/// space it stands for and `%XY` as byte `XY`.
pub proof fn lemma_url_roundtrip(bytes: Seq<u8>)
    ensures
        url_decoded(url_encoded(bytes)) == bytes,
    decreases bytes.len(),
{
    if bytes.len() == 0 {
        assert(url_encoded(bytes) =~= Seq::<char>::empty());
    } else {
        lemma_encoded_front(bytes);
        lemma_url_roundtrip(bytes.skip(1));
        lemma_decode_unit(bytes[0], url_encoded(bytes.skip(1)));
        assert(seq![bytes[0]] + bytes.skip(1) =~= bytes);
    }
}

// ─── Request URLs and bodies ─────────────────────────────────────────────────

/// The URL of a page of mods.
pub open spec fn workshop_page_url_spec(query: Seq<char>, page: u32, sort: SortOrder) -> Seq<char> {
    "https://steamcommunity.com/workshop/browse/?appid="@ + decimal(APP_ID as nat)
        + "&searchtext="@ + url_encoded(vstd::utf8::encode_utf8(query))
        + "&section=readytouseitems&browsesort="@ + sort_param(sort) + "&p="@ + decimal(
        page as nat,
    )
}

/// The URL of a page of mods for a search text, page and order.
pub fn workshop_page_url(query: &str, page: u32, sort: SortOrder) -> (r: String)
    ensures
        r@ == workshop_page_url_spec(query@, page, sort),
{
    let mut u = string_of("https://steamcommunity.com/workshop/browse/?appid=");
    push_decimal(&mut u, APP_ID);
    push_str(&mut u, "&searchtext=");
    let enc = url_encode(query);
    push_str(&mut u, enc.as_str());
    push_str(&mut u, "&section=readytouseitems&browsesort=");
    push_str(&mut u, sort.as_param());
    push_str(&mut u, "&p=");
    push_decimal(&mut u, page as u64);
    u
}

/// The URL of a page of collections; the search text is left out when
/// empty.
pub open spec fn collections_page_url_spec(query: Seq<char>, page: u32, sort: SortOrder) -> Seq<char> {
    "https://steamcommunity.com/workshop/browse/?appid="@ + decimal(APP_ID as nat) + (if query.len()
        == 0 {
        Seq::<char>::empty()
    } else {
        "&searchtext="@ + url_encoded(vstd::utf8::encode_utf8(query))
    }) + "&section=collections&browsesort="@ + sort_param(sort) + "&p="@ + decimal(page as nat)
}

/// The URL of a page of collections for a search text, page and order.
pub fn collections_page_url(query: &str, page: u32, sort: SortOrder) -> (r: String)
    ensures
        r@ == collections_page_url_spec(query@, page, sort),
{
    let mut u = string_of("https://steamcommunity.com/workshop/browse/?appid=");
    push_decimal(&mut u, APP_ID);
    let ghost base = u@;
    if !query.is_empty() {
        push_str(&mut u, "&searchtext=");
        let enc = url_encode(query);
        push_str(&mut u, enc.as_str());
        assert(u@ =~= base + ("&searchtext="@ + url_encoded(vstd::utf8::encode_utf8(query@))));
    } else {
        assert(u@ =~= base + Seq::<char>::empty());
    }
    push_str(&mut u, "&section=collections&browsesort=");
    push_str(&mut u, sort.as_param());
    push_str(&mut u, "&p=");
    push_decimal(&mut u, page as u64);
    u
}

/// The Web API method that lists the children of a collection.
pub const COLLECTION_DETAILS_URL: &'static str = "https://api.steampowered.com/ISteamRemoteStorage/GetCollectionDetails/v1/";

/// The Web API method that describes published files.
pub const FILE_DETAILS_URL: &'static str = "https://api.steampowered.com/ISteamRemoteStorage/GetPublishedFileDetails/v1/";

/// The body of the request for the children of a collection.
pub fn collection_request_body(collection_id: u64) -> (r: String)
    ensures
        r@ == "collectioncount=1&publishedfileids[0]="@ + decimal(collection_id as nat),
{
    let mut b = string_of("collectioncount=1&publishedfileids[0]=");
    push_decimal(&mut b, collection_id);
    b
}

/// The `&publishedfileids[i]=id` parts for a list of ids.
pub open spec fn id_params(ids: Seq<u64>) -> Seq<char>
    decreases ids.len(),
{
    if ids.len() == 0 {
        Seq::<char>::empty()
    } else {
        id_params(ids.drop_last()) + "&publishedfileids["@ + decimal((ids.len() - 1) as nat) + "]="@
            + decimal(ids.last() as nat)
    }
}

/// The body of the request for the details of the given items; none when
/// there is no item to ask for.
pub fn details_request_body(ids: &Vec<u64>) -> (r: Option<String>)
    ensures
        ids.len() == 0 ==> r is None,
        ids.len() > 0 ==> (r matches Some(b) && b@ == "itemcount="@ + decimal(ids.len() as nat)
            + id_params(ids@)),
{
    if ids.len() == 0 {
        return None;
    }
    let mut b = string_of("itemcount=");
    push_decimal(&mut b, ids.len() as u64);
    let ghost head = b@;
    assert(ids@.take(0) =~= Seq::<u64>::empty());
    let mut i: usize = 0;
    while i < ids.len()
        invariant
            i <= ids.len(),
            b@ == head + id_params(ids@.take(i as int)),
        decreases ids.len() - i,
    {
        push_str(&mut b, "&publishedfileids[");
        push_decimal(&mut b, i as u64);
        push_str(&mut b, "]=");
        push_decimal(&mut b, ids[i]);
        proof {
            let t = ids@.take(i + 1);
            assert(t.drop_last() =~= ids@.take(i as int));
            assert(t.last() == ids@[i as int]);
            assert(b@ =~= head + id_params(t));
        }
        i = i + 1;
    }
    assert(ids@.take(ids.len() as int) =~= ids@);
    Some(b)
}

// ─── Reading listing cards ───────────────────────────────────────────────────

/// The text of `s` before the first occurrence of `p` (all of `s` when `p`
/// does not occur): the first piece of `s.split(p)`.
pub open spec fn before_first(s: Seq<char>, p: Seq<char>) -> Seq<char> {
    match find_first(s, p) {
        Some(k) => s.take(k),
        None => s,
    }
}

/// The Workshop id in a link: the text after the first `id=` up to the next
/// `id=`, then up to the first `&`, parsed as a `u64`; `0` when any step
/// fails.
pub open spec fn href_id(href: Seq<char>) -> u64 {
    match find_first(href, "id="@) {
        None => 0,
        Some(k) => {
            let piece = before_first(href.skip(k + 3), "id="@);
            match parse_u64_spec(before_first(piece, "&"@)) {
                Some(v) => v,
                None => 0,
            }
        },
    }
}

fn prefix_before(s: &Vec<char>, p: &Vec<char>) -> (r: Vec<char>)
    ensures
        r@ == before_first(s@, p@),
{
    match find_chars(s, p) {
        Some(k) => {
            let mut r: Vec<char> = Vec::new();
            let mut i: usize = 0;
            while i < k
                invariant
                    i <= k,
                    k <= s.len(),
                    r@ == s@.take(i as int),
                decreases k - i,
            {
                r.push(s[i]);
                assert(s@.take(i as int).push(s@[i as int]) =~= s@.take(i + 1));
                i = i + 1;
            }
            r
        },
        None => {
            let mut r: Vec<char> = Vec::new();
            let mut i: usize = 0;
            while i < s.len()
                invariant
                    i <= s.len(),
                    r@ == s@.take(i as int),
                decreases s.len() - i,
            {
                r.push(s[i]);
                assert(s@.take(i as int).push(s@[i as int]) =~= s@.take(i + 1));
                i = i + 1;
            }
            assert(s@.take(s.len() as int) =~= s@);
            r
        },
    }
}

/// The Workshop id in an item link, `0` when there is none.
pub fn id_from_href(href: &str) -> (r: u64)
    ensures
        r == href_id(href@),
{
    let s = to_chars(href);
    let marker = to_chars("id=");
    let amp = to_chars("&");
    match find_chars(&s, &marker) {
        None => 0,
        Some(k) => {
            proof {
                reveal_strlit("id=");
                assert(marker@.len() == 3);
                assert(occurs_at(s@, marker@, k as int));
                assert(k + marker@.len() <= s@.len());
            }
            let slen = s.len();
            let mlen = marker.len();
            assert(k + mlen <= slen);
            let mut rest: Vec<char> = Vec::new();
            let mut i: usize = k + mlen;
            proof {
                assert(s@.skip(k + 3).take(0) =~= Seq::<char>::empty());
            }
            while i < s.len()
                invariant
                    k + 3 <= i <= s.len(),
                    rest@ == s@.skip(k + 3).take(i - k - 3),
                decreases s.len() - i,
            {
                rest.push(s[i]);
                proof {
                    assert(s@.skip(k + 3).take(i - k - 3).push(s@[i as int]) =~= s@.skip(k + 3).take(
                        i - k - 2,
                    ));
                }
                i = i + 1;
            }
            assert(s@.skip(k + 3).take(s.len() - k - 3) =~= s@.skip(k + 3));
            let piece = prefix_before(&rest, &marker);
            let seg = prefix_before(&piece, &amp);
            let mut seg_s = String::new();
            push_chars(&mut seg_s, &seg);
            assert(Seq::<char>::empty() + seg@ =~= seg@);
            match parse_u64(seg_s.as_str()) {
                Some(v) => v,
                None => 0,
            }
        },
    }
}

/// The trimmed text of an element, empty when there is no element.
pub open spec fn opt_trimmed(t: Option<Seq<char>>) -> Seq<char> {
    match t {
        Some(x) => trim(x),
        None => Seq::<char>::empty(),
    }
}

/// A text, empty when there is none.
pub open spec fn opt_text(t: Option<Seq<char>>) -> Seq<char> {
    match t {
        Some(x) => x,
        None => Seq::<char>::empty(),
    }
}

/// The characters of an optional string.
pub open spec fn opt_view(t: Option<String>) -> Option<Seq<char>> {
    match t {
        Some(x) => Some(x@),
        None => None,
    }
}

fn trimmed_or_empty(t: Option<String>) -> (r: String)
    ensures
        r@ == opt_trimmed(opt_view(t)),
{
    match t {
        Some(x) => trim_str(x.as_str()),
        None => String::new(),
    }
}

fn text_or_empty(t: Option<String>) -> (r: String)
    ensures
        r@ == opt_text(opt_view(t)),
{
    match t {
        Some(x) => x,
        None => String::new(),
    }
}

/// The mod a listing card shows, from its link, preview image source, title
/// text and author text; none when the link holds no id.
pub fn workshop_item_from_card(
    href: Option<String>,
    preview_src: Option<String>,
    title_text: Option<String>,
    author_text: Option<String>,
) -> (r: Option<WorkshopItem>)
    ensures
        ({
            let id = href_id(opt_text(opt_view(href)));
            if id == 0 {
                r is None
            } else {
                r matches Some(it) && it.id == id && it.title@ == opt_trimmed(opt_view(title_text))
                    && it.author@ == opt_trimmed(opt_view(author_text)) && it.preview_url@
                    == opt_text(opt_view(preview_src))
            }
        }),
{
    let h = text_or_empty(href);
    let id = id_from_href(h.as_str());
    if id == 0 {
        return None;
    }
    Some(
        WorkshopItem {
            id,
            title: trimmed_or_empty(title_text),
            author: trimmed_or_empty(author_text),
            preview_url: text_or_empty(preview_src),
        },
    )
}

/// The id of a collection card: its `data-publishedfileid` attribute parsed
/// as a `u64`, `0` when missing or not a number.
pub open spec fn card_collection_id(attr: Option<Seq<char>>) -> u64 {
    match attr {
        Some(a) => match parse_u64_spec(a) {
            Some(v) => v,
            None => 0,
        },
        None => 0,
    }
}

/// The collection a listing card shows; none when it carries no id.
pub fn collection_item_from_card(
    published_id: Option<String>,
    preview_src: Option<String>,
    title_text: Option<String>,
    author_text: Option<String>,
) -> (r: Option<CollectionItem>)
    ensures
        ({
            let id = card_collection_id(opt_view(published_id));
            if id == 0 {
                r is None
            } else {
                r matches Some(it) && it.id == id && it.title@ == opt_trimmed(opt_view(title_text))
                    && it.author@ == opt_trimmed(opt_view(author_text)) && it.preview_url@
                    == opt_text(opt_view(preview_src))
            }
        }),
{
    let id = match &published_id {
        Some(a) => match parse_u64(a.as_str()) {
            Some(v) => v,
            None => 0,
        },
        None => 0,
    };
    if id == 0 {
        return None;
    }
    Some(
        CollectionItem {
            id,
            title: trimmed_or_empty(title_text),
            author: trimmed_or_empty(author_text),
            preview_url: text_or_empty(preview_src),
        },
    )
}

/// What a listing card of a browse page carries: its id text (the link of a
/// mod card, the `data-publishedfileid` of a collection card), the source of
/// its preview image, and the texts of its title and author elements.
#[derive(Debug, Clone, PartialEq)]
pub struct CardFields {
    pub id_text: Option<String>,
    pub preview_src: Option<String>,
    pub title_text: Option<String>,
    pub author_text: Option<String>,
}

/// The texts a listing card carries.
pub struct CardView {
    pub id_text: Option<Seq<char>>,
    pub preview_src: Option<Seq<char>>,
    pub title_text: Option<Seq<char>>,
    pub author_text: Option<Seq<char>>,
}

/// The texts of a card.
pub open spec fn card_view(c: CardFields) -> CardView {
    CardView {
        id_text: opt_view(c.id_text),
        preview_src: opt_view(c.preview_src),
        title_text: opt_view(c.title_text),
        author_text: opt_view(c.author_text),
    }
}

/// The texts of a sequence of cards.
pub open spec fn card_views(cs: Seq<CardFields>) -> Seq<CardView> {
    cs.map_values(|c: CardFields| card_view(c))
}

/// The id, title, author and preview of a listed mod.
pub open spec fn listing_fields(it: WorkshopItem) -> (u64, Seq<char>, Seq<char>, Seq<char>) {
    (it.id, it.title@, it.author@, it.preview_url@)
}

/// The id, title, author and preview of a listed collection.
pub open spec fn collection_fields(it: CollectionItem) -> (u64, Seq<char>, Seq<char>, Seq<char>) {
    (it.id, it.title@, it.author@, it.preview_url@)
}

/// What a card shows once its id is read by `id_of`: nothing when the id
/// is `0`, else the id with the trimmed title and author and the preview.
pub open spec fn card_entry(c: CardView, id: u64) -> Option<(u64, Seq<char>, Seq<char>, Seq<char>)> {
    if id == 0 {
        None
    } else {
        Some((id, opt_trimmed(c.title_text), opt_trimmed(c.author_text), opt_text(c.preview_src)))
    }
}

/// The mods of a page of mod cards, in page order.
pub open spec fn card_items(cs: Seq<CardView>) -> Seq<(u64, Seq<char>, Seq<char>, Seq<char>)>
    decreases cs.len(),
{
    if cs.len() == 0 {
        Seq::empty()
    } else {
        let rest = card_items(cs.drop_last());
        match card_entry(cs.last(), href_id(opt_text(cs.last().id_text))) {
            Some(x) => rest.push(x),
            None => rest,
        }
    }
}

/// The collections of a page of collection cards, in page order.
pub open spec fn card_collections(cs: Seq<CardView>) -> Seq<(u64, Seq<char>, Seq<char>, Seq<char>)>
    decreases cs.len(),
{
    if cs.len() == 0 {
        Seq::empty()
    } else {
        let rest = card_collections(cs.drop_last());
        match card_entry(cs.last(), card_collection_id(cs.last().id_text)) {
            Some(x) => rest.push(x),
            None => rest,
        }
    }
}

proof fn lemma_card_item_ids_nonzero(cs: Seq<CardView>)
    ensures
        forall|k: int| 0 <= k < card_items(cs).len() ==> (#[trigger] card_items(cs)[k]).0 != 0,
    decreases cs.len(),
{
    if cs.len() > 0 {
        lemma_card_item_ids_nonzero(cs.drop_last());
        let rest = card_items(cs.drop_last());
        assert forall|k: int| 0 <= k < card_items(cs).len() implies (#[trigger] card_items(cs)[k]).0
            != 0 by {
            if k < rest.len() {
                match card_entry(cs.last(), href_id(opt_text(cs.last().id_text))) {
                    Some(x) => assert(rest.push(x)[k] == rest[k]),
                    None => {},
                }
            }
        }
    }
}

proof fn lemma_card_collection_ids_nonzero(cs: Seq<CardView>)
    ensures
        forall|k: int|
            0 <= k < card_collections(cs).len() ==> (#[trigger] card_collections(cs)[k]).0 != 0,
    decreases cs.len(),
{
    if cs.len() > 0 {
        lemma_card_collection_ids_nonzero(cs.drop_last());
        let rest = card_collections(cs.drop_last());
        assert forall|k: int| 0 <= k < card_collections(cs).len() implies (#[trigger] card_collections(
            cs,
        )[k]).0 != 0 by {
            if k < rest.len() {
                match card_entry(cs.last(), card_collection_id(cs.last().id_text)) {
                    Some(x) => assert(rest.push(x)[k] == rest[k]),
                    None => {},
                }
            }
        }
    }
}

fn clone_opt(o: &Option<String>) -> (r: Option<String>)
    ensures
        r == *o,
{
    match o {
        Some(x) => Some(x.clone()),
        None => None,
    }
}

/// The mods of a page of mod cards: one per card whose link holds an id
/// (see [`workshop_item_from_card`]), in page order.
pub fn items_from_cards(cards: &Vec<CardFields>) -> (r: Vec<WorkshopItem>)
    ensures
        r@.map_values(|it: WorkshopItem| listing_fields(it)) == card_items(card_views(cards@)),
{
    let mut r: Vec<WorkshopItem> = Vec::new();
    let mut i: usize = 0;
    while i < cards.len()
        invariant
            i <= cards.len(),
            r@.map_values(|it: WorkshopItem| listing_fields(it)) == card_items(
                card_views(cards@.take(i as int)),
            ),
        decreases cards.len() - i,
    {
        let c = &cards[i];
        let ghost before = r@;
        let got = workshop_item_from_card(
            clone_opt(&c.id_text),
            clone_opt(&c.preview_src),
            clone_opt(&c.title_text),
            clone_opt(&c.author_text),
        );
        if let Some(item) = got {
            r.push(item);
        }
        proof {
            let tk = card_views(cards@.take(i + 1));
            assert(tk.drop_last() =~= card_views(cards@.take(i as int)));
            assert(tk.last() == card_view(cards@[i as int]));
            if r@.len() > before.len() {
                assert(r@.map_values(|it: WorkshopItem| listing_fields(it)) =~= before.map_values(
                    |it: WorkshopItem| listing_fields(it),
                ).push(listing_fields(r@.last())));
            } else {
                assert(r@ =~= before);
            }
        }
        i = i + 1;
    }
    assert(card_views(cards@.take(cards.len() as int)) =~= card_views(cards@));
    r
}

/// The collections of a page of collection cards: one per card that carries
/// an id (see [`collection_item_from_card`]), in page order.
pub fn collections_from_cards(cards: &Vec<CardFields>) -> (r: Vec<CollectionItem>)
    ensures
        r@.map_values(|it: CollectionItem| collection_fields(it)) == card_collections(card_views(cards@)),
{
    let mut r: Vec<CollectionItem> = Vec::new();
    let mut i: usize = 0;
    while i < cards.len()
        invariant
            i <= cards.len(),
            r@.map_values(|it: CollectionItem| collection_fields(it)) == card_collections(
                card_views(cards@.take(i as int)),
            ),
        decreases cards.len() - i,
    {
        let c = &cards[i];
        let ghost before = r@;
        let got = collection_item_from_card(
            clone_opt(&c.id_text),
            clone_opt(&c.preview_src),
            clone_opt(&c.title_text),
            clone_opt(&c.author_text),
        );
        if let Some(item) = got {
            r.push(item);
        }
        proof {
            let tk = card_views(cards@.take(i + 1));
            assert(tk.drop_last() =~= card_views(cards@.take(i as int)));
            assert(tk.last() == card_view(cards@[i as int]));
            if r@.len() > before.len() {
                assert(r@.map_values(|it: CollectionItem| collection_fields(it)) =~= before.map_values(
                    |it: CollectionItem| collection_fields(it),
                ).push(collection_fields(r@.last())));
            } else {
                assert(r@ =~= before);
            }
        }
        i = i + 1;
    }
    assert(card_views(cards@.take(cards.len() as int)) =~= card_views(cards@));
    r
}

/// A page button leads to the next page when its trimmed text is `>`.
pub fn is_next_button(text: &str) -> (r: bool)
    ensures
        r == (trim(text@) == ">"@),
{
    let t = trim_str(text);
    str_eq(t.as_str(), ">")
}

/// Whether any of the page buttons leads to the next page.
pub fn has_next_page(button_texts: &Vec<String>) -> (r: bool)
    ensures
        r == exists|k: int| 0 <= k < button_texts.len() && trim(#[trigger] button_texts@[k]@) == ">"@,
{
    let mut i: usize = 0;
    while i < button_texts.len()
        invariant
            i <= button_texts.len(),
            forall|k: int| 0 <= k < i ==> trim(#[trigger] button_texts@[k]@) != ">"@,
        decreases button_texts.len() - i,
    {
        if is_next_button(button_texts[i].as_str()) {
            return true;
        }
        i = i + 1;
    }
    false
}

// ─── Errors ──────────────────────────────────────────────────────────────────

/// Why a Workshop request gave no result.
#[derive(Debug, Clone, PartialEq)]
pub enum WorkshopError {
    /// The HTTP request failed; the transport's message.
    Http(String),
    /// The answer was not JSON; the parser's message.
    Json(String),
    /// A collection answer listed no children.
    EmptyCollection,
    /// A details answer listed no items.
    NoItemDetails,
    /// A CSS selector of the page reader did not parse.
    BadSelector,
}

/// The message of a Workshop error.
pub open spec fn error_message(e: WorkshopError) -> Seq<char> {
    match e {
        WorkshopError::Http(m) => "HTTP ошибка: "@ + m@,
        WorkshopError::Json(m) => m@,
        WorkshopError::EmptyCollection => "Сборка пустая или недоступна"@,
        WorkshopError::NoItemDetails => "Нет данных о модах сборки"@,
        WorkshopError::BadSelector => "invalid CSS selector"@,
    }
}

impl WorkshopError {
    /// The message shown to the user.
    pub fn message(&self) -> (r: String)
        ensures
            r@ == error_message(*self),
    {
        match self {
            WorkshopError::Http(m) => {
                let mut s = string_of("HTTP ошибка: ");
                push_str(&mut s, m.as_str());
                s
            },
            WorkshopError::Json(m) => m.clone(),
            WorkshopError::EmptyCollection => string_of("Сборка пустая или недоступна"),
            WorkshopError::NoItemDetails => string_of("Нет данных о модах сборки"),
            WorkshopError::BadSelector => string_of("invalid CSS selector"),
        }
    }
}

// ─── Web API answers ─────────────────────────────────────────────────────────

/// The ids of a collection's children: each `publishedfileid` that is
/// present and parses as a `u64`, in order.
pub open spec fn parsed_ids(c: Seq<Option<String>>) -> Seq<u64>
    decreases c.len(),
{
    if c.len() == 0 {
        Seq::<u64>::empty()
    } else {
        let rest = parsed_ids(c.drop_last());
        match c.last() {
            Some(s) => match parse_u64_spec(s@) {
                Some(v) => rest.push(v),
                None => rest,
            },
            None => rest,
        }
    }
}

/// The title and child ids of a collection from the fields of the answer:
/// the title defaults to `Collection`; without a list of children the
/// collection is empty or unavailable.
pub fn collection_from_fields(title: Option<String>, child_ids: Option<Vec<Option<String>>>) -> (r:
    Result<(String, Vec<u64>), WorkshopError>)
    ensures
        match child_ids {
            None => r matches Err(WorkshopError::EmptyCollection),
            Some(c) => (r matches Ok((t, ids)) && t@ == match opt_view(title) {
                Some(x) => x,
                None => "Collection"@,
            } && ids@ == parsed_ids(c@)),
        },
{
    let t = match title {
        Some(x) => x,
        None => string_of("Collection"),
    };
    match child_ids {
        None => Err(WorkshopError::EmptyCollection),
        Some(c) => {
            let mut ids: Vec<u64> = Vec::new();
            let mut i: usize = 0;
            while i < c.len()
                invariant
                    i <= c.len(),
                    ids@ == parsed_ids(c@.take(i as int)),
                decreases c.len() - i,
            {
                match &c[i] {
                    Some(s) => match parse_u64(s.as_str()) {
                        Some(v) => ids.push(v),
                        None => {},
                    },
                    None => {},
                }
                proof {
                    let tk = c@.take(i + 1);
                    assert(tk.drop_last() =~= c@.take(i as int));
                    assert(tk.last() == c@[i as int]);
                }
                i = i + 1;
            }
            assert(c@.take(c.len() as int) =~= c@);
            Ok((t, ids))
        },
    }
}

/// The fields of one entry of a details answer.
#[derive(Debug, Clone, PartialEq)]
pub struct DetailFields {
    pub id: Option<String>,
    pub title: Option<String>,
    pub preview_url: Option<String>,
}

/// The mod an entry of a details answer describes: none when its id is
/// missing or not a number; the title and preview default to empty, the
/// author is not given.
pub open spec fn detail_item(d: DetailFields) -> Option<(u64, Seq<char>, Seq<char>)> {
    match d.id {
        Some(s) => match parse_u64_spec(s@) {
            Some(v) => Some((v, opt_text(opt_view(d.title)), opt_text(opt_view(d.preview_url)))),
            None => None,
        },
        None => None,
    }
}

/// The mods of a details answer, in order.
pub open spec fn detail_items(ds: Seq<DetailFields>) -> Seq<(u64, Seq<char>, Seq<char>)>
    decreases ds.len(),
{
    if ds.len() == 0 {
        Seq::<(u64, Seq<char>, Seq<char>)>::empty()
    } else {
        let rest = detail_items(ds.drop_last());
        match detail_item(ds.last()) {
            Some(x) => rest.push(x),
            None => rest,
        }
    }
}

/// The id, title and preview of a listed mod.
pub open spec fn item_fields(it: WorkshopItem) -> (u64, Seq<char>, Seq<char>) {
    (it.id, it.title@, it.preview_url@)
}

/// The mods of a details answer.
pub fn items_from_details(details: &Vec<DetailFields>) -> (r: Vec<WorkshopItem>)
    ensures
        r@.map_values(|it: WorkshopItem| item_fields(it)) == detail_items(details@),
        forall|k: int| 0 <= k < r.len() ==> (#[trigger] r@[k]).author@.len() == 0,
{
    let mut r: Vec<WorkshopItem> = Vec::new();
    let mut i: usize = 0;
    while i < details.len()
        invariant
            i <= details.len(),
            r@.map_values(|it: WorkshopItem| item_fields(it)) == detail_items(details@.take(i as int)),
            forall|k: int| 0 <= k < r.len() ==> (#[trigger] r@[k]).author@.len() == 0,
        decreases details.len() - i,
    {
        let d = &details[i];
        let ghost before = r@;
        match &d.id {
            Some(s) => match parse_u64(s.as_str()) {
                Some(v) => {
                    let title = match &d.title {
                        Some(t) => t.clone(),
                        None => String::new(),
                    };
                    let preview_url = match &d.preview_url {
                        Some(t) => t.clone(),
                        None => String::new(),
                    };
                    r.push(WorkshopItem { id: v, title, author: String::new(), preview_url });
                },
                None => {},
            },
            None => {},
        }
        proof {
            let tk = details@.take(i + 1);
            assert(tk.drop_last() =~= details@.take(i as int));
            assert(tk.last() == details@[i as int]);
            if r@.len() > before.len() {
                assert(r@.map_values(|it: WorkshopItem| item_fields(it)) =~= before.map_values(
                    |it: WorkshopItem| item_fields(it),
                ).push(item_fields(r@.last())));
            } else {
                assert(r@ =~= before);
            }
        }
        i = i + 1;
    }
    assert(details@.take(details.len() as int) =~= details@);
    r
}

fn parse_json(text: &str) -> (r: Result<Json, WorkshopError>)
    ensures
        r matches Err(e) ==> e is Json,
        r is Ok <==> parsed_json(text@) is Some,
        r matches Ok(j) ==> parsed_json(text@) == Some(j),
{
    match json_parse(text) {
        Ok(v) => Ok(v),
        Err(e) => Err(WorkshopError::Json(json_error_message(&e))),
    }
}

/// `response.collectiondetails[0]` of a `GetCollectionDetails` answer.
pub open spec fn collection_detail(j: Json) -> Json {
    element(member(member(j, "response"@), "collectiondetails"@), 0)
}

/// The `publishedfileid` texts of a collection's children, in order.
pub open spec fn child_id_fields(children: Seq<Json>) -> Seq<Option<String>> {
    children.map_values(|c: Json| as_str(member(c, "publishedfileid"@)))
}

/// What a `GetCollectionDetails` answer gives: the title (`Collection` when
/// it has none) and the ids of the children of the first collection; an
/// empty-collection error when it lists no children.
pub open spec fn collection_answer(j: Json, r: Result<(String, Vec<u64>), WorkshopError>) -> bool {
    let d = collection_detail(j);
    match as_array(member(d, "children"@)) {
        None => r matches Err(WorkshopError::EmptyCollection),
        Some(cs) => r matches Ok((t, ids)) && t@ == (match as_str(member(d, "title"@)) {
            Some(x) => x@,
            None => "Collection"@,
        }) && ids@ == parsed_ids(child_id_fields(cs)),
    }
}

/// Reads a `GetCollectionDetails` answer: the title and the child ids of
/// the first collection, through [`collection_from_fields`]; the parser's
/// message when the text is not JSON.
pub fn parse_collection_response(text: &str) -> (r: Result<(String, Vec<u64>), WorkshopError>)
    ensures
        (r matches Err(e) && e is Json) <==> parsed_json(text@) is None,
        parsed_json(text@) matches Some(j) ==> collection_answer(j, r),
{
    let json = parse_json(text)?;
    let detail = get_element(get_member(get_member(Some(&json), "response"), "collectiondetails"), 0);
    let title = str_of(get_member(detail, "title"));
    let children = match array_of(get_member(detail, "children")) {
        Some(arr) => {
            let mut ids: Vec<Option<String>> = Vec::new();
            let mut i: usize = 0;
            while i < arr.len()
                invariant
                    i <= arr.len(),
                    ids@ == child_id_fields(arr@.take(i as int)),
                decreases arr.len() - i,
            {
                ids.push(str_of(get_member(Some(&arr[i]), "publishedfileid")));
                proof {
                    assert(child_id_fields(arr@.take(i + 1)) =~= child_id_fields(arr@.take(i as int)).push(
                        as_str(member(arr@[i as int], "publishedfileid"@)),
                    ));
                }
                i = i + 1;
            }
            assert(arr@.take(arr.len() as int) =~= arr@);
            Some(ids)
        },
        None => None,
    };
    collection_from_fields(title, children)
}

/// The fields of one entry of a `GetPublishedFileDetails` answer.
pub open spec fn detail_fields_of(d: Json) -> DetailFields {
    DetailFields {
        id: as_str(member(d, "publishedfileid"@)),
        title: as_str(member(d, "title"@)),
        preview_url: as_str(member(d, "preview_url"@)),
    }
}

/// What a `GetPublishedFileDetails` answer gives: the mods of
/// `response.publishedfiledetails` (see [`detail_items`]), authors empty; a
/// no-details error when that list is missing.
pub open spec fn details_answer(j: Json, r: Result<Vec<WorkshopItem>, WorkshopError>) -> bool {
    match as_array(member(member(j, "response"@), "publishedfiledetails"@)) {
        None => r matches Err(WorkshopError::NoItemDetails),
        Some(ds) => r matches Ok(items) && items@.map_values(|it: WorkshopItem| item_fields(it))
            == detail_items(ds.map_values(|d: Json| detail_fields_of(d))) && forall|k: int|
            0 <= k < items.len() ==> (#[trigger] items@[k]).author@.len() == 0,
    }
}

/// Reads a `GetPublishedFileDetails` answer into mods, through
/// [`items_from_details`]; the parser's message when the text is not JSON.
pub fn parse_details_response(text: &str) -> (r: Result<Vec<WorkshopItem>, WorkshopError>)
    ensures
        (r matches Err(e) && e is Json) <==> parsed_json(text@) is None,
        parsed_json(text@) matches Some(j) ==> details_answer(j, r),
{
    let json = parse_json(text)?;
    match array_of(get_member(get_member(Some(&json), "response"), "publishedfiledetails")) {
        None => Err(WorkshopError::NoItemDetails),
        Some(arr) => {
            let mut ds: Vec<DetailFields> = Vec::new();
            let mut i: usize = 0;
            while i < arr.len()
                invariant
                    i <= arr.len(),
                    ds@ == arr@.take(i as int).map_values(|d: Json| detail_fields_of(d)),
                decreases arr.len() - i,
            {
                let d = Some(&arr[i]);
                ds.push(
                    DetailFields {
                        id: str_of(get_member(d, "publishedfileid")),
                        title: str_of(get_member(d, "title")),
                        preview_url: str_of(get_member(d, "preview_url")),
                    },
                );
                proof {
                    assert(arr@.take(i + 1).map_values(|d: Json| detail_fields_of(d)) =~= arr@.take(
                        i as int,
                    ).map_values(|d: Json| detail_fields_of(d)).push(detail_fields_of(arr@[i as int])));
                }
                i = i + 1;
            }
            assert(arr@.take(arr.len() as int) =~= arr@);
            Ok(items_from_details(&ds))
        },
    }
}

// ─── Browse pages ────────────────────────────────────────────────────────────

/// The attribute `name` of the first of `nodes`, none when there is none.
pub open spec fn first_attr_of(html: Seq<char>, nodes: Seq<usize>, name: Seq<char>) -> Option<Seq<char>> {
    if nodes.len() > 0 {
        html_attr(html, nodes[0], name)
    } else {
        None
    }
}

/// The text of the first of `nodes`, none when there is none.
pub open spec fn first_text_of(html: Seq<char>, nodes: Seq<usize>) -> Option<Seq<char>> {
    if nodes.len() > 0 {
        Some(html_text(html, nodes[0]))
    } else {
        None
    }
}

/// What the mod card at element `card` carries: the `href` of its first
/// `a.ugc`, the `src` of its first `.workshopItemPreviewImage`, and the texts
/// of its first `.workshopItemTitle` and first `.workshopItemAuthorName a`.
pub open spec fn mod_card(html: Seq<char>, card: usize) -> CardView {
    CardView {
        id_text: first_attr_of(html, html_matches_under(html, card, "a.ugc"@), "href"@),
        preview_src: first_attr_of(
            html,
            html_matches_under(html, card, ".workshopItemPreviewImage"@),
            "src"@,
        ),
        title_text: first_text_of(html, html_matches_under(html, card, ".workshopItemTitle"@)),
        author_text: first_text_of(
            html,
            html_matches_under(html, card, ".workshopItemAuthorName a"@),
        ),
    }
}

/// The mod cards of a page: one per `.workshopItem`, in document order.
pub open spec fn mod_cards(html: Seq<char>) -> Seq<CardView> {
    html_matches(html, ".workshopItem"@).map_values(|n: usize| mod_card(html, n))
}

/// What the collection card at element `card` carries: its own
/// `data-publishedfileid`, the `src` of its first
/// `.workshopItemPreviewImage`, and the texts of its first
/// `.workshopItemTitle` and first `.workshopItemAuthorName`.
pub open spec fn collection_card(html: Seq<char>, card: usize) -> CardView {
    CardView {
        id_text: html_attr(html, card, "data-publishedfileid"@),
        preview_src: first_attr_of(
            html,
            html_matches_under(html, card, ".workshopItemPreviewImage"@),
            "src"@,
        ),
        title_text: first_text_of(html, html_matches_under(html, card, ".workshopItemTitle"@)),
        author_text: first_text_of(html, html_matches_under(html, card, ".workshopItemAuthorName"@)),
    }
}

/// The collection cards of a page: one per `a.workshopItemCollection`, in
/// document order.
pub open spec fn collection_cards(html: Seq<char>) -> Seq<CardView> {
    html_matches(html, "a.workshopItemCollection"@).map_values(|n: usize| collection_card(html, n))
}

/// The texts of some elements, in order.
pub open spec fn html_texts(html: Seq<char>, nodes: Seq<usize>) -> Seq<Seq<char>> {
    nodes.map_values(|n: usize| html_text(html, n))
}

/// The texts of the page buttons (`a.pagebtn`), in document order.
pub open spec fn button_texts(html: Seq<char>) -> Seq<Seq<char>> {
    html_texts(html, html_matches(html, "a.pagebtn"@))
}

/// Whether one of the button texts, trimmed, is `>`.
pub open spec fn next_button_among(texts: Seq<Seq<char>>) -> bool {
    exists|k: int| 0 <= k < texts.len() && trim(#[trigger] texts[k]) == ">"@
}

fn selector(s: &str) -> (r: Result<Css, WorkshopError>)
    ensures
        r matches Err(e) ==> e is BadSelector,
        r is Ok <==> selector_accepts(s@),
        r matches Ok(c) ==> c@ == s@,
{
    match compile_selector(s) {
        Some(x) => Ok(x),
        None => Err(WorkshopError::BadSelector),
    }
}

/// The attribute `name` of the first of `nodes`, none when there is none.
fn first_attr(doc: &HtmlDoc, nodes: &Vec<usize>, name: &str) -> (r: Option<String>)
    ensures
        opt_view(r) == first_attr_of(doc@, nodes@, name@),
{
    if nodes.len() > 0 {
        node_attr(doc, nodes[0], name)
    } else {
        None
    }
}

/// The text of the first of `nodes`, none exactly when there is none.
fn first_text(doc: &HtmlDoc, nodes: &Vec<usize>) -> (r: Option<String>)
    ensures
        opt_view(r) == first_text_of(doc@, nodes@),
{
    if nodes.len() > 0 {
        Some(node_text(doc, nodes[0]))
    } else {
        None
    }
}

/// Whether one of the elements matching `css` has the trimmed text `>`
/// (see [`has_next_page`]).
fn next_page_present(doc: &HtmlDoc, css: &Css) -> (r: bool)
    ensures
        r == next_button_among(html_texts(doc@, html_matches(doc@, css@))),
{
    let buttons = select_nodes(doc, css);
    let ghost want = html_texts(doc@, buttons@);
    let mut texts: Vec<String> = Vec::new();
    let mut i: usize = 0;
    while i < buttons.len()
        invariant
            i <= buttons.len(),
            want == html_texts(doc@, buttons@),
            texts.len() == i,
            forall|k: int| 0 <= k < i ==> #[trigger] texts@[k]@ == want[k],
        decreases buttons.len() - i,
    {
        texts.push(node_text(doc, buttons[i]));
        i = i + 1;
    }
    let r = has_next_page(&texts);
    proof {
        if r {
            let k = choose|k: int| 0 <= k < texts.len() && trim(#[trigger] texts@[k]@) == ">"@;
            assert(trim(want[k]) == ">"@);
        }
        if next_button_among(want) {
            let k = choose|k: int| 0 <= k < want.len() && trim(#[trigger] want[k]) == ">"@;
            assert(trim(texts@[k]@) == ">"@);
        }
    }
    r
}

/// Whether `scraper` accepts every selector the page of mods is read with.
pub open spec fn item_selectors_accepted() -> bool {
    &&& selector_accepts(".workshopItem"@)
    &&& selector_accepts("a.ugc"@)
    &&& selector_accepts(".workshopItemPreviewImage"@)
    &&& selector_accepts(".workshopItemTitle"@)
    &&& selector_accepts(".workshopItemAuthorName a"@)
    &&& selector_accepts("a.pagebtn"@)
}

/// Whether `scraper` accepts every selector the page of collections is read
/// with.
pub open spec fn collection_selectors_accepted() -> bool {
    &&& selector_accepts("a.workshopItemCollection"@)
    &&& selector_accepts(".workshopItemPreviewImage"@)
    &&& selector_accepts(".workshopItemTitle"@)
    &&& selector_accepts(".workshopItemAuthorName"@)
    &&& selector_accepts("a.pagebtn"@)
}

/// Checks that `scraper` accepts the selectors of the page of mods, so that
/// [`parse_page`] reads pages rather than failing.
pub fn item_selectors_check() -> (r: bool)
    ensures
        r == item_selectors_accepted(),
{
    compile_selector(".workshopItem").is_some() && compile_selector("a.ugc").is_some()
        && compile_selector(".workshopItemPreviewImage").is_some() && compile_selector(
        ".workshopItemTitle",
    ).is_some() && compile_selector(".workshopItemAuthorName a").is_some() && compile_selector(
        "a.pagebtn",
    ).is_some()
}

/// Checks that `scraper` accepts the selectors of the page of collections,
/// so that [`parse_collections_page`] reads pages rather than failing.
pub fn collection_selectors_check() -> (r: bool)
    ensures
        r == collection_selectors_accepted(),
{
    compile_selector("a.workshopItemCollection").is_some() && compile_selector(
        ".workshopItemPreviewImage",
    ).is_some() && compile_selector(".workshopItemTitle").is_some() && compile_selector(
        ".workshopItemAuthorName",
    ).is_some() && compile_selector("a.pagebtn").is_some()
}

/// Reads a page of mods: one mod per `.workshopItem` card whose link holds
/// an id, from the first link, preview image, title and author element of
/// the card (see [`mod_cards`] and [`items_from_cards`]), and whether a `>`
/// page button is present. The elements come from `scraper`.
pub fn parse_page(html: &str) -> (r: Result<(Vec<WorkshopItem>, bool), WorkshopError>)
    ensures
        r matches Err(e) ==> e is BadSelector,
        r is Ok <==> item_selectors_accepted(),
        r matches Ok((items, next)) ==> items@.map_values(|it: WorkshopItem| listing_fields(it))
            == card_items(mod_cards(html@)) && next == next_button_among(button_texts(html@)),
        r matches Ok((items, _)) ==> forall|k: int| 0 <= k < items.len() ==> (#[trigger] items@[k]).id != 0,
{
    let doc = parse_html(html);
    let item_sel = selector(".workshopItem")?;
    let link_sel = selector("a.ugc")?;
    let img_sel = selector(".workshopItemPreviewImage")?;
    let title_sel = selector(".workshopItemTitle")?;
    let author_sel = selector(".workshopItemAuthorName a")?;
    let next_sel = selector("a.pagebtn")?;
    let cards = select_nodes(&doc, &item_sel);
    let ghost want = mod_cards(html@);
    let mut fields: Vec<CardFields> = Vec::new();
    let mut i: usize = 0;
    while i < cards.len()
        invariant
            i <= cards.len(),
            doc@ == html@,
            cards@ == html_matches(html@, ".workshopItem"@),
            want == mod_cards(html@),
            link_sel@ == "a.ugc"@,
            img_sel@ == ".workshopItemPreviewImage"@,
            title_sel@ == ".workshopItemTitle"@,
            author_sel@ == ".workshopItemAuthorName a"@,
            card_views(fields@) == want.take(i as int),
        decreases cards.len() - i,
    {
        let card = cards[i];
        let c = CardFields {
            id_text: first_attr(&doc, &select_nodes_under(&doc, card, &link_sel), "href"),
            preview_src: first_attr(&doc, &select_nodes_under(&doc, card, &img_sel), "src"),
            title_text: first_text(&doc, &select_nodes_under(&doc, card, &title_sel)),
            author_text: first_text(&doc, &select_nodes_under(&doc, card, &author_sel)),
        };
        let ghost before = fields@;
        fields.push(c);
        proof {
            assert(card_view(c) == mod_card(html@, card));
            assert(want[i as int] == mod_card(html@, card));
            assert(card_views(fields@) =~= card_views(before).push(card_view(c)));
            assert(want.take(i + 1) =~= want.take(i as int).push(want[i as int]));
        }
        i = i + 1;
    }
    assert(want.take(cards.len() as int) =~= want);
    let items = items_from_cards(&fields);
    proof {
        lemma_card_item_ids_nonzero(card_views(fields@));
        assert forall|k: int| 0 <= k < items.len() implies (#[trigger] items@[k]).id != 0 by {
            assert(items@.map_values(|it: WorkshopItem| listing_fields(it))[k] == listing_fields(
                items@[k],
            ));
        }
    }
    let has_next = next_page_present(&doc, &next_sel);
    Ok((items, has_next))
}

/// Reads a page of collections: one per `a.workshopItemCollection` card that
/// carries an id, from the card's id attribute and its first preview image,
/// title and author element (see [`collection_cards`] and
/// [`collections_from_cards`]), and whether a `>` page button is present.
/// The elements come from `scraper`.
pub fn parse_collections_page(html: &str) -> (r: Result<(Vec<CollectionItem>, bool), WorkshopError>)
    ensures
        r matches Err(e) ==> e is BadSelector,
        r is Ok <==> collection_selectors_accepted(),
        r matches Ok((items, next)) ==> items@.map_values(
            |it: CollectionItem| collection_fields(it),
        ) == card_collections(collection_cards(html@)) && next == next_button_among(
            button_texts(html@),
        ),
        r matches Ok((items, _)) ==> forall|k: int| 0 <= k < items.len() ==> (#[trigger] items@[k]).id != 0,
{
    let doc = parse_html(html);
    let item_sel = selector("a.workshopItemCollection")?;
    let img_sel = selector(".workshopItemPreviewImage")?;
    let title_sel = selector(".workshopItemTitle")?;
    let author_sel = selector(".workshopItemAuthorName")?;
    let next_sel = selector("a.pagebtn")?;
    let cards = select_nodes(&doc, &item_sel);
    let ghost want = collection_cards(html@);
    let mut fields: Vec<CardFields> = Vec::new();
    let mut i: usize = 0;
    while i < cards.len()
        invariant
            i <= cards.len(),
            doc@ == html@,
            cards@ == html_matches(html@, "a.workshopItemCollection"@),
            want == collection_cards(html@),
            img_sel@ == ".workshopItemPreviewImage"@,
            title_sel@ == ".workshopItemTitle"@,
            author_sel@ == ".workshopItemAuthorName"@,
            card_views(fields@) == want.take(i as int),
        decreases cards.len() - i,
    {
        let card = cards[i];
        let c = CardFields {
            id_text: node_attr(&doc, card, "data-publishedfileid"),
            preview_src: first_attr(&doc, &select_nodes_under(&doc, card, &img_sel), "src"),
            title_text: first_text(&doc, &select_nodes_under(&doc, card, &title_sel)),
            author_text: first_text(&doc, &select_nodes_under(&doc, card, &author_sel)),
        };
        let ghost before = fields@;
        fields.push(c);
        proof {
            assert(card_view(c) == collection_card(html@, card));
            assert(want[i as int] == collection_card(html@, card));
            assert(card_views(fields@) =~= card_views(before).push(card_view(c)));
            assert(want.take(i + 1) =~= want.take(i as int).push(want[i as int]));
        }
        i = i + 1;
    }
    assert(want.take(cards.len() as int) =~= want);
    let items = collections_from_cards(&fields);
    proof {
        lemma_card_collection_ids_nonzero(card_views(fields@));
        assert forall|k: int| 0 <= k < items.len() implies (#[trigger] items@[k]).id != 0 by {
            assert(items@.map_values(|it: CollectionItem| collection_fields(it))[k]
                == collection_fields(items@[k]));
        }
    }
    let has_next = next_page_present(&doc, &next_sel);
    Ok((items, has_next))
}

// ─── Browser panel state ─────────────────────────────────────────────────────

/// Where the current listing request stands.
#[derive(Debug, Clone, PartialEq)]
pub enum FetchState {
    Idle,
    Loading,
    Done(Vec<WorkshopItem>),
    Error(String),
}

/// The value of a [`FetchState`].
pub enum FetchStateView {
    Idle,
    Loading,
    Done(Seq<WorkshopItem>),
    Error(Seq<char>),
}

/// A listing request to send: search text, page and order.
#[derive(Debug, Clone, PartialEq)]
pub struct FetchRequest {
    pub query: String,
    pub page: u32,
    pub sort: SortOrder,
    /// Which request of the panel this is; only the answer to the latest
    /// one is taken.
    pub generation: u64,
}

/// The value of the browser panel state.
pub struct BrowserView {
    pub search: Seq<char>,
    pub sort: SortOrder,
    pub page: u32,
    pub has_prev: bool,
    pub has_next: bool,
    pub state: FetchStateView,
    pub queue: Seq<(u64, Seq<char>)>,
    pub auto_loaded: bool,
    pub generation: u64,
}

/// The state of the Workshop browser panel: the search text, the order and
/// page shown, the paging buttons, the listing request, and the download
/// queue of `(id, title)` pairs.
pub struct BrowserState {
    search_input: String,
    sort: SortOrder,
    page: u32,
    has_prev: bool,
    has_next: bool,
    state: FetchState,
    queue: Vec<(u64, String)>,
    auto_loaded: bool,
    generation: u64,
}

/// The value of a fetch state.
pub open spec fn fetch_view(s: FetchState) -> FetchStateView {
    match s {
        FetchState::Idle => FetchStateView::Idle,
        FetchState::Loading => FetchStateView::Loading,
        FetchState::Done(v) => FetchStateView::Done(v@),
        FetchState::Error(e) => FetchStateView::Error(e@),
    }
}

/// The value of a download queue.
pub open spec fn queue_view(q: Seq<(u64, String)>) -> Seq<(u64, Seq<char>)> {
    q.map_values(|e: (u64, String)| (e.0, e.1@))
}

/// The ids of a download queue, in order.
pub open spec fn queue_ids(q: Seq<(u64, Seq<char>)>) -> Seq<u64> {
    q.map_values(|e: (u64, Seq<char>)| e.0)
}

/// The queue without the entries of id `id`.
pub open spec fn without_id(q: Seq<(u64, Seq<char>)>, id: u64) -> Seq<(u64, Seq<char>)>
    decreases q.len(),
{
    if q.len() == 0 {
        q
    } else if q.last().0 == id {
        without_id(q.drop_last(), id)
    } else {
        without_id(q.drop_last(), id).push(q.last())
    }
}

impl View for BrowserState {
    type V = BrowserView;

    closed spec fn view(&self) -> BrowserView {
        BrowserView {
            search: self.search_input@,
            sort: self.sort,
            page: self.page,
            has_prev: self.has_prev,
            has_next: self.has_next,
            state: fetch_view(self.state),
            queue: queue_view(self.queue@),
            auto_loaded: self.auto_loaded,
            generation: self.generation,
        }
    }
}

/// The panel invariant: pages count from 1, the previous-page button is
/// offered only past page 1, and no id is queued twice.
pub open spec fn browser_wf(v: BrowserView) -> bool {
    &&& v.page >= 1
    &&& v.has_prev ==> v.page > 1
    &&& queue_ids(v.queue).no_duplicates()
}

/// The request for the panel's current search text, page and order, as
/// its latest request.
pub open spec fn request_of(r: FetchRequest, v: BrowserView) -> bool {
    r.query@ == v.search && r.page == v.page && r.sort == v.sort && r.generation == v.generation
}

/// The number of the request after one numbered `g`.
pub open spec fn next_generation(g: u64) -> u64 {
    if g == u64::MAX {
        0
    } else {
        (g + 1) as u64
    }
}

/// The panel once a new request is sent: loading, the previous-page button
/// offered past page 1, a new request number.
pub open spec fn loading(v: BrowserView) -> BrowserView {
    BrowserView {
        state: FetchStateView::Loading,
        has_prev: v.page > 1,
        generation: next_generation(v.generation),
        ..v
    }
}

/// The panel after the answer to request number `generation`: an answer
/// to an earlier request leaves it as it is; the answer to the latest one
/// shows the mods (and whether a next page exists) or the error.
pub open spec fn after_answer(
    v: BrowserView,
    generation: u64,
    result: Result<(Seq<WorkshopItem>, bool), Seq<char>>,
) -> BrowserView {
    if generation != v.generation {
        v
    } else {
        match result {
            Ok((items, more)) => BrowserView {
                has_next: more,
                state: FetchStateView::Done(items),
                ..v
            },
            Err(e) => BrowserView { state: FetchStateView::Error(e), ..v },
        }
    }
}

/// The value of a listing answer.
pub open spec fn answer_view(r: Result<(Vec<WorkshopItem>, bool), String>) -> Result<
    (Seq<WorkshopItem>, bool),
    Seq<char>,
> {
    match r {
        Ok((items, more)) => Ok((items@, more)),
        Err(e) => Err(e@),
    }
}

/// The answer to a request is ignored once a newer request was sent: the
/// request made for a panel is no longer the latest after the next one.
pub proof fn lemma_stale_answer_ignored(
    q: FetchRequest,
    v: BrowserView,
    result: Result<(Seq<WorkshopItem>, bool), Seq<char>>,
)
    requires
        q.generation == v.generation,
    ensures
        after_answer(loading(v), q.generation, result) == loading(v),
{
}

proof fn lemma_without_id(q: Seq<(u64, Seq<char>)>, id: u64)
    requires
        queue_ids(q).no_duplicates(),
    ensures
        queue_ids(without_id(q, id)).no_duplicates(),
        !queue_ids(without_id(q, id)).contains(id),
        forall|x: u64| queue_ids(without_id(q, id)).contains(x) ==> queue_ids(q).contains(x),
    decreases q.len(),
{
    if q.len() > 0 {
        let d = q.drop_last();
        assert(queue_ids(d) =~= queue_ids(q).drop_last());
        assert(queue_ids(d).no_duplicates()) by {
            assert forall|i: int, j: int|
                0 <= i < queue_ids(d).len() && 0 <= j < queue_ids(d).len() && i != j implies queue_ids(
                d,
            )[i] != queue_ids(d)[j] by {
                assert(queue_ids(d)[i] == queue_ids(q)[i]);
                assert(queue_ids(d)[j] == queue_ids(q)[j]);
            }
        }
        lemma_without_id(d, id);
        let w = without_id(d, id);
        if q.last().0 != id {
            let l = q.last().0;
            assert(queue_ids(w.push(q.last())) =~= queue_ids(w).push(l));
            assert(!queue_ids(w).contains(l)) by {
                if queue_ids(w).contains(l) {
                    assert(queue_ids(d).contains(l));
                    let k = choose|k: int| 0 <= k < queue_ids(d).len() && queue_ids(d)[k] == l;
                    assert(queue_ids(q)[k] == l);
                    assert(queue_ids(q)[q.len() - 1] == l);
                }
            }
            assert forall|i: int, j: int|
                0 <= i < queue_ids(w).push(l).len() && 0 <= j < queue_ids(w).push(l).len() && i
                    != j implies queue_ids(w).push(l)[i] != queue_ids(w).push(l)[j] by {
                if i < queue_ids(w).len() && j < queue_ids(w).len() {
                } else if i == queue_ids(w).len() {
                    assert(queue_ids(w).push(l)[j] == queue_ids(w)[j]);
                } else {
                    assert(queue_ids(w).push(l)[i] == queue_ids(w)[i]);
                }
            }
            assert forall|x: u64| queue_ids(w).push(l).contains(x) implies queue_ids(q).contains(x) by {
                let k = choose|k: int| 0 <= k < queue_ids(w).push(l).len() && queue_ids(w).push(l)[k] == x;
                if k < queue_ids(w).len() {
                    assert(queue_ids(w).contains(x));
                    assert(queue_ids(d).contains(x));
                    let m = choose|m: int| 0 <= m < queue_ids(d).len() && queue_ids(d)[m] == x;
                    assert(queue_ids(q)[m] == x);
                } else {
                    assert(queue_ids(q)[q.len() - 1] == x);
                }
            }
            assert(!queue_ids(w).push(l).contains(id)) by {
                if queue_ids(w).push(l).contains(id) {
                    let k = choose|k: int| 0 <= k < queue_ids(w).push(l).len() && queue_ids(w).push(l)[k] == id;
                    if k < queue_ids(w).len() {
                        assert(queue_ids(w)[k] == id);
                    }
                }
            }
            assert forall|x: u64| queue_ids(w).contains(x) implies queue_ids(q).contains(x) by {
                assert(queue_ids(d).contains(x));
                let m = choose|m: int| 0 <= m < queue_ids(d).len() && queue_ids(d)[m] == x;
                assert(queue_ids(q)[m] == x);
            }
        } else {
            assert forall|x: u64| queue_ids(w).contains(x) implies queue_ids(q).contains(x) by {
                assert(queue_ids(d).contains(x));
                let m = choose|m: int| 0 <= m < queue_ids(d).len() && queue_ids(d)[m] == x;
                assert(queue_ids(q)[m] == x);
            }
        }
    }
}

/// The panel after going to the previous page: one page back, loading.
pub open spec fn prev_view(v: BrowserView) -> BrowserView {
    loading(BrowserView { page: (v.page - 1) as u32, ..v })
}

/// The panel after going to the next page: one page on, loading.
pub open spec fn next_view(v: BrowserView) -> BrowserView {
    loading(BrowserView { page: (v.page + 1) as u32, ..v })
}

/// Going to the next page and back again shows the page one started from,
/// with the same search, order and queue; a request for it is running.
pub proof fn lemma_next_then_prev(v: BrowserView)
    requires
        browser_wf(v),
        v.page < u32::MAX,
    ensures
        next_view(v).has_prev,
        prev_view(next_view(v)) == (BrowserView {
            has_prev: v.page > 1,
            state: FetchStateView::Loading,
            generation: next_generation(next_generation(v.generation)),
            ..v
        }),
{
}

impl BrowserState {
    /// The panel invariant holds.
    pub closed spec fn wf(&self) -> bool {
        browser_wf(self@)
    }

    /// A fresh panel: empty search, trending order, page 1, nothing loaded,
    /// empty queue.
    pub fn new() -> (r: Self)
        ensures
            r.wf(),
            r@.search.len() == 0,
            r@.sort == SortOrder::Trending,
            r@.page == 1,
            !r@.has_prev,
            !r@.has_next,
            r@.state is Idle,
            r@.queue.len() == 0,
            !r@.auto_loaded,
    {
        let r = BrowserState {
            search_input: String::new(),
            sort: SortOrder::Trending,
            page: 1,
            has_prev: false,
            has_next: false,
            state: FetchState::Idle,
            queue: Vec::new(),
            auto_loaded: false,
            generation: 0,
        };
        assert(queue_ids(r@.queue) =~= Seq::<u64>::empty());
        r
    }

    fn begin_fetch(&mut self) -> (r: FetchRequest)
        requires
            old(self).wf() || (old(self)@.page >= 1 && queue_ids(old(self)@.queue).no_duplicates()),
        ensures
            final(self).wf(),
            final(self)@ == loading(old(self)@),
            request_of(r, final(self)@),
    {
        self.state = FetchState::Loading;
        self.has_prev = self.page > 1;
        self.generation = if self.generation == u64::MAX {
            0
        } else {
            self.generation + 1
        };
        FetchRequest {
            query: self.search_input.clone(),
            page: self.page,
            sort: self.sort,
            generation: self.generation,
        }
    }

    /// The first time the panel is shown it loads the listing once.
    pub fn first_show(&mut self) -> (r: Option<FetchRequest>)
        requires
            old(self).wf(),
        ensures
            final(self).wf(),
            old(self)@.auto_loaded ==> r is None && final(self)@ == old(self)@,
            !old(self)@.auto_loaded ==> (r matches Some(q) && request_of(q, final(self)@))
                && final(self)@ == loading(BrowserView { auto_loaded: true, ..old(self)@ }),
    {
        if self.auto_loaded {
            return None;
        }
        self.auto_loaded = true;
        Some(self.begin_fetch())
    }

    /// A new search: back to page 1 and load.
    pub fn search(&mut self) -> (r: FetchRequest)
        requires
            old(self).wf(),
        ensures
            final(self).wf(),
            final(self)@ == loading(BrowserView { page: 1, ..old(self)@ }),
            request_of(r, final(self)@),
    {
        self.page = 1;
        self.begin_fetch()
    }

    /// Another order: back to page 1 and load.
    pub fn choose_sort(&mut self, sort: SortOrder) -> (r: FetchRequest)
        requires
            old(self).wf(),
        ensures
            final(self).wf(),
            final(self)@ == loading(BrowserView { sort, page: 1, ..old(self)@ }),
            request_of(r, final(self)@),
    {
        self.sort = sort;
        self.page = 1;
        self.begin_fetch()
    }

    /// The previous page, when the button is offered.
    pub fn prev_page(&mut self) -> (r: Option<FetchRequest>)
        requires
            old(self).wf(),
        ensures
            final(self).wf(),
            !old(self)@.has_prev ==> r is None && final(self)@ == old(self)@,
            old(self)@.has_prev ==> (r matches Some(q) && request_of(q, final(self)@))
                && final(self)@ == prev_view(old(self)@),
    {
        if !self.has_prev {
            return None;
        }
        self.page = self.page - 1;
        Some(self.begin_fetch())
    }

    /// The next page, when the button is offered (and the page number has
    /// room to grow).
    pub fn next_page(&mut self) -> (r: Option<FetchRequest>)
        requires
            old(self).wf(),
        ensures
            final(self).wf(),
            !(old(self)@.has_next && old(self)@.page < u32::MAX) ==> r is None && final(self)@
                == old(self)@,
            (old(self)@.has_next && old(self)@.page < u32::MAX) ==> (r matches Some(q)
                && request_of(q, final(self)@)) && final(self)@ == next_view(old(self)@),
    {
        if !self.has_next || self.page == u32::MAX {
            return None;
        }
        self.page = self.page + 1;
        Some(self.begin_fetch())
    }

    /// Takes the answer to a listing request: the mods and whether a next
    /// page exists, or the error message. Only the answer to the latest
    /// request is shown; an answer to an earlier one is dropped.
    pub fn finish_fetch_for(
        &mut self,
        req: &FetchRequest,
        result: Result<(Vec<WorkshopItem>, bool), String>,
    )
        requires
            old(self).wf(),
        ensures
            final(self).wf(),
            final(self)@ == after_answer(old(self)@, req.generation, answer_view(result)),
    {
        if req.generation != self.generation {
            return;
        }
        match result {
            Ok((items, more)) => {
                self.has_next = more;
                self.state = FetchState::Done(items);
            },
            Err(e) => {
                self.state = FetchState::Error(e);
            },
        }
    }

    /// Replaces the search text.
    pub fn set_search_input(&mut self, text: String)
        requires
            old(self).wf(),
        ensures
            final(self).wf(),
            final(self)@ == (BrowserView { search: text@, ..old(self)@ }),
    {
        self.search_input = text;
    }

    /// The search text.
    pub fn search_input(&self) -> (r: &String)
        ensures
            r@ == self@.search,
    {
        &self.search_input
    }

    /// The order shown.
    pub fn sort(&self) -> (r: SortOrder)
        ensures
            r == self@.sort,
    {
        self.sort
    }

    /// The page shown.
    pub fn page(&self) -> (r: u32)
        ensures
            r == self@.page,
    {
        self.page
    }

    /// Whether the previous-page button is offered.
    pub fn has_prev(&self) -> (r: bool)
        ensures
            r == self@.has_prev,
    {
        self.has_prev
    }

    /// Whether the next-page button is offered.
    pub fn has_next(&self) -> (r: bool)
        ensures
            r == self@.has_next,
    {
        self.has_next
    }

    /// Where the listing request stands.
    pub fn state(&self) -> (r: &FetchState)
        ensures
            fetch_view(*r) == self@.state,
    {
        &self.state
    }

    /// The download queue.
    pub fn queue(&self) -> (r: &Vec<(u64, String)>)
        ensures
            queue_view(r@) == self@.queue,
    {
        &self.queue
    }

    /// Whether an item is queued for download.
    pub fn is_queued(&self, id: u64) -> (r: bool)
        ensures
            r == queue_ids(self@.queue).contains(id),
    {
        let mut i: usize = 0;
        while i < self.queue.len()
            invariant
                i <= self.queue.len(),
                forall|j: int| 0 <= j < i ==> self.queue@[j].0 != id,
            decreases self.queue.len() - i,
        {
            if self.queue[i].0 == id {
                proof {
                    assert(queue_ids(self@.queue)[i as int] == id);
                }
                return true;
            }
            i = i + 1;
        }
        proof {
            if queue_ids(self@.queue).contains(id) {
                let k = choose|k: int| 0 <= k < queue_ids(self@.queue).len() && queue_ids(self@.queue)[k] == id;
                assert(self.queue@[k].0 == id);
            }
        }
        false
    }

    /// Queues an item for download; an item already queued stays once.
    pub fn enqueue(&mut self, id: u64, title: String)
        requires
            old(self).wf(),
        ensures
            final(self).wf(),
            final(self)@ == (BrowserView {
                queue: if queue_ids(old(self)@.queue).contains(id) {
                    old(self)@.queue
                } else {
                    old(self)@.queue.push((id, title@))
                },
                ..old(self)@
            }),
    {
        if self.is_queued(id) {
            return;
        }
        let ghost q = self@.queue;
        self.queue.push((id, title));
        proof {
            assert(queue_view(self.queue@) =~= q.push((id, title@)));
            let ids = queue_ids(q);
            assert(queue_ids(q.push((id, title@))) =~= ids.push(id));
            assert forall|i: int, j: int|
                0 <= i < ids.push(id).len() && 0 <= j < ids.push(id).len() && i != j implies ids.push(
                id,
            )[i] != ids.push(id)[j] by {
                if i < ids.len() && j < ids.len() {
                } else if i == ids.len() {
                    assert(ids.push(id)[j] == ids[j]);
                } else {
                    assert(ids.push(id)[i] == ids[i]);
                }
            }
        }
    }

    /// Takes an item out of the download queue.
    pub fn dequeue(&mut self, id: u64)
        requires
            old(self).wf(),
        ensures
            final(self).wf(),
            final(self)@ == (BrowserView { queue: without_id(old(self)@.queue, id), ..old(self)@ }),
            !queue_ids(final(self)@.queue).contains(id),
    {
        let ghost q = self@.queue;
        let mut kept: Vec<(u64, String)> = Vec::new();
        let mut i: usize = 0;
        while i < self.queue.len()
            invariant
                i <= self.queue.len(),
                q == queue_view(self.queue@),
                queue_view(kept@) == without_id(q.take(i as int), id),
            decreases self.queue.len() - i,
        {
            let e = &self.queue[i];
            let ghost before = kept@;
            if e.0 != id {
                kept.push((e.0, e.1.clone()));
            }
            proof {
                let t = q.take(i + 1);
                assert(t.drop_last() =~= q.take(i as int));
                assert(t.last() == (e.0, e.1@));
                if e.0 != id {
                    assert(queue_view(kept@) =~= queue_view(before).push((e.0, e.1@)));
                }
            }
            i = i + 1;
        }
        assert(q.take(self.queue.len() as int) =~= q);
        self.queue = kept;
        proof {
            lemma_without_id(q, id);
        }
    }

    /// Hands out the queued ids for download, in queue order, and empties
    /// the queue.
    pub fn take_download(&mut self) -> (r: Vec<u64>)
        requires
            old(self).wf(),
        ensures
            final(self).wf(),
            r@ == queue_ids(old(self)@.queue),
            final(self)@ == (BrowserView { queue: Seq::<(u64, Seq<char>)>::empty(), ..old(self)@ }),
    {
        let ghost q = self@.queue;
        let mut ids: Vec<u64> = Vec::new();
        let mut i: usize = 0;
        while i < self.queue.len()
            invariant
                i <= self.queue.len(),
                q == queue_view(self.queue@),
                ids@ == queue_ids(q.take(i as int)),
            decreases self.queue.len() - i,
        {
            ids.push(self.queue[i].0);
            proof {
                assert(queue_ids(q.take(i + 1)) =~= queue_ids(q.take(i as int)).push(q[i as int].0));
            }
            i = i + 1;
        }
        assert(q.take(self.queue.len() as int) =~= q);
        self.queue = Vec::new();
        proof {
            assert(queue_view(self.queue@) =~= Seq::<(u64, Seq<char>)>::empty());
            assert(queue_ids(Seq::<(u64, Seq<char>)>::empty()) =~= Seq::<u64>::empty());
        }
        ids
    }

    /// Empties the download queue.
    pub fn clear_queue(&mut self)
        requires
            old(self).wf(),
        ensures
            final(self).wf(),
            final(self)@ == (BrowserView { queue: Seq::<(u64, Seq<char>)>::empty(), ..old(self)@ }),
    {
        self.queue = Vec::new();
        proof {
            assert(queue_view(self.queue@) =~= Seq::<(u64, Seq<char>)>::empty());
            assert(queue_ids(Seq::<(u64, Seq<char>)>::empty()) =~= Seq::<u64>::empty());
        }
    }
}

/// What the results area of the browser panel shows.
#[derive(Debug, Clone, PartialEq)]
pub enum ResultsPane {
    /// Nothing was asked for yet: the hint to start a search.
    Prompt,
    /// A listing request is running: the area stays empty.
    Waiting,
    /// The request failed: `✕ ` and the error message.
    Failed(String),
    /// The request found no mod.
    NothingFound,
    /// The cards of the mods found.
    Cards,
}

/// The value of a [`ResultsPane`].
pub enum ResultsPaneView {
    Prompt,
    Waiting,
    Failed(Seq<char>),
    NothingFound,
    Cards,
}

impl View for ResultsPane {
    type V = ResultsPaneView;

    open spec fn view(&self) -> ResultsPaneView {
        match self {
            ResultsPane::Prompt => ResultsPaneView::Prompt,
            ResultsPane::Waiting => ResultsPaneView::Waiting,
            ResultsPane::Failed(m) => ResultsPaneView::Failed(m@),
            ResultsPane::NothingFound => ResultsPaneView::NothingFound,
            ResultsPane::Cards => ResultsPaneView::Cards,
        }
    }
}

/// The results area for a state of the listing request.
pub open spec fn pane_of(s: FetchStateView) -> ResultsPaneView {
    match s {
        FetchStateView::Idle => ResultsPaneView::Prompt,
        FetchStateView::Loading => ResultsPaneView::Waiting,
        FetchStateView::Error(e) => ResultsPaneView::Failed("✕ "@ + e),
        FetchStateView::Done(items) => if items.len() == 0 {
            ResultsPaneView::NothingFound
        } else {
            ResultsPaneView::Cards
        },
    }
}

impl BrowserState {
    /// What the results area shows for the current listing request.
    pub fn results_pane(&self) -> (r: ResultsPane)
        ensures
            r@ == pane_of(self@.state),
    {
        match &self.state {
            FetchState::Idle => ResultsPane::Prompt,
            FetchState::Loading => ResultsPane::Waiting,
            FetchState::Error(e) => {
                let mut m = string_of("✕ ");
                push_str(&mut m, e.as_str());
                ResultsPane::Failed(m)
            },
            FetchState::Done(items) => if items.len() == 0 {
                ResultsPane::NothingFound
            } else {
                ResultsPane::Cards
            },
        }
    }

    /// The caption of the download queue: `Очередь: ` and its length.
    pub fn queue_caption(&self) -> (r: String)
        ensures
            r@ == "Очередь: "@ + decimal(self@.queue.len() as nat) + "  "@,
    {
        let mut c = string_of("Очередь: ");
        push_decimal(&mut c, self.queue.len() as u64);
        push_str(&mut c, "  ");
        c
    }
}

/// Queuing an item that is not queued and then taking it out again leaves
/// the queue as it was.
pub proof fn lemma_enqueue_dequeue(q: Seq<(u64, Seq<char>)>, id: u64, title: Seq<char>)
    requires
        !queue_ids(q).contains(id),
    ensures
        without_id(q.push((id, title)), id) == q,
{
    assert(q.push((id, title)).drop_last() =~= q);
    lemma_without_absent(q, id);
}

proof fn lemma_without_absent(q: Seq<(u64, Seq<char>)>, id: u64)
    requires
        !queue_ids(q).contains(id),
    ensures
        without_id(q, id) == q,
    decreases q.len(),
{
    if q.len() > 0 {
        let d = q.drop_last();
        assert(!queue_ids(d).contains(id)) by {
            if queue_ids(d).contains(id) {
                let k = choose|k: int| 0 <= k < queue_ids(d).len() && queue_ids(d)[k] == id;
                assert(queue_ids(q)[k] == id);
            }
        }
        lemma_without_absent(d, id);
        assert(queue_ids(q)[q.len() - 1] == q.last().0);
        assert(d.push(q.last()) =~= q);
    }
}

/// The label of a queued item: titles longer than 22 bytes are cut after
/// their 22nd byte (which must end a character) and marked with `…`.
pub fn queue_tag(title: &str) -> (r: String)
    requires
        vstd::utf8::encode_utf8(title@).len() > 22 ==> vstd::utf8::is_char_boundary(
            vstd::utf8::encode_utf8(title@),
            22,
        ),
    ensures
        vstd::utf8::encode_utf8(title@).len() <= 22 ==> r@ == title@,
        vstd::utf8::encode_utf8(title@).len() > 22 ==> exists|h: Seq<char>|
            vstd::utf8::encode_utf8(h) == vstd::utf8::encode_utf8(title@).subrange(0, 22) && r@ == h
                + "…"@,
{
    if title.as_bytes().len() > 22 {
        let (head, _tail) = title.split_at(22);
        let mut r = string_of(head);
        push_str(&mut r, "…");
        proof {
            assert(vstd::utf8::encode_utf8(head@) == vstd::utf8::encode_utf8(title@).subrange(0, 22));
            assert(r@ == head@ + "…"@);
            assert(vstd::utf8::encode_utf8(head@) == vstd::utf8::encode_utf8(title@).subrange(0, 22)
                && r@ == head@ + "…"@);
        }
        r
    } else {
        string_of(title)
    }
}

} // verus!
