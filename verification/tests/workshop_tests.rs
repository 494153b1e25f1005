use rust_rim::json::{array_of, get_element, get_member, str_of, Json};
use rust_rim::workshop::{
    collection_from_fields, collection_item_from_card, collection_request_body,
    collections_page_url, details_request_body, has_next_page, id_from_href, is_next_button,
    items_from_details, parse_collection_response, parse_collections_page,
    parse_details_response, parse_page, queue_tag, url_encode, workshop_item_from_card,
    workshop_page_url, BrowserState, CollectionItem, DetailFields, FetchRequest, FetchState,
    ResultsPane, SortOrder, COLLECTION_DETAILS_URL, CardFields, items_from_cards, collections_from_cards, FILE_DETAILS_URL, WorkshopError, WorkshopItem, APP_ID,
};

#[test]
fn sort_orders() {
    assert_eq!(SortOrder::Trending.as_param(), "trend");
    assert_eq!(SortOrder::Latest.as_param(), "mostrecent");
    assert_eq!(SortOrder::MostSubscribed.as_param(), "totaluniquesubscriptions");
    assert_eq!(SortOrder::RecentlyUpdated.as_param(), "lastupdated");
    assert_eq!(SortOrder::Trending.label(), "Популярные");
    assert_eq!(SortOrder::Latest.label(), "Новые");
    assert_eq!(SortOrder::MostSubscribed.label(), "По подпискам");
    assert_eq!(SortOrder::RecentlyUpdated.label(), "Обновлённые");
    assert_eq!(
        SortOrder::all(),
        vec![SortOrder::Trending, SortOrder::Latest, SortOrder::MostSubscribed, SortOrder::RecentlyUpdated]
    );
    assert_eq!(APP_ID, 294100);
}

#[test]
fn url_encoding() {
    assert_eq!(url_encode("a b&c"), "a+b%26c");
    assert_eq!(url_encode("Vanilla-Expanded_1.5~x"), "Vanilla-Expanded_1.5~x");
    assert_eq!(url_encode("é"), "%C3%A9");
    assert_eq!(url_encode("/?="), "%2F%3F%3D");
    assert_eq!(url_encode(""), "");
    let enc = url_encode("Мод № 1!");
    assert!(enc.chars().all(|c| c.is_ascii_alphanumeric() || "-_.~+%".contains(c)));
}

#[test]
fn page_urls() {
    assert_eq!(
        workshop_page_url("hugs lib", 2, SortOrder::Latest),
        "https://steamcommunity.com/workshop/browse/?appid=294100&searchtext=hugs+lib&section=readytouseitems&browsesort=mostrecent&p=2"
    );
    assert_eq!(
        collections_page_url("", 1, SortOrder::Trending),
        "https://steamcommunity.com/workshop/browse/?appid=294100&section=collections&browsesort=trend&p=1"
    );
    assert_eq!(
        collections_page_url("a&b", 3, SortOrder::RecentlyUpdated),
        "https://steamcommunity.com/workshop/browse/?appid=294100&searchtext=a%26b&section=collections&browsesort=lastupdated&p=3"
    );
}

#[test]
fn request_bodies() {
    assert_eq!(collection_request_body(123), "collectioncount=1&publishedfileids[0]=123");
    assert_eq!(details_request_body(&vec![]), None);
    assert_eq!(
        details_request_body(&vec![7, 88]),
        Some("itemcount=2&publishedfileids[0]=7&publishedfileids[1]=88".to_string())
    );
}

#[test]
fn hrefs_give_ids() {
    assert_eq!(
        id_from_href("https://steamcommunity.com/sharedfiles/filedetails/?id=2009463077&searchtext="),
        2009463077
    );
    assert_eq!(id_from_href("https://x/?id=55"), 55);
    assert_eq!(id_from_href("https://x/?noid"), 0);
    assert_eq!(id_from_href("https://x/?id=abc&x=1"), 0);
    assert_eq!(id_from_href("?id=12id=34"), 12);
    assert_eq!(id_from_href("?id=+9&z"), 9);
    assert_eq!(id_from_href(""), 0);
}

#[test]
fn cards_become_items() {
    assert_eq!(
        workshop_item_from_card(
            Some("https://s/?id=42&x".to_string()),
            Some("https://img/p.png".to_string()),
            Some("  Title \n".to_string()),
            None,
        ),
        Some(WorkshopItem {
            id: 42,
            title: "Title".to_string(),
            author: String::new(),
            preview_url: "https://img/p.png".to_string(),
        })
    );
    assert_eq!(workshop_item_from_card(None, None, None, None), None);
    assert_eq!(
        collection_item_from_card(Some("77".to_string()), None, Some("C".to_string()), Some(" me ".to_string())),
        Some(CollectionItem { id: 77, title: "C".to_string(), author: "me".to_string(), preview_url: String::new() })
    );
    assert_eq!(collection_item_from_card(Some("x".to_string()), None, None, None), None);
    assert_eq!(collection_item_from_card(Some("0".to_string()), None, None, None), None);
}

#[test]
fn next_page_buttons() {
    assert!(is_next_button(" > "));
    assert!(!is_next_button("<"));
    assert!(has_next_page(&vec!["1".to_string(), "\n>\n".to_string()]));
    assert!(!has_next_page(&vec!["<".to_string(), "2".to_string()]));
    assert!(!has_next_page(&vec![]));
}

#[test]
fn browse_page_is_read() {
    let html = r##"<html><body>
      <div class="workshopItem">
        <a class="ugc" href="https://steamcommunity.com/sharedfiles/filedetails/?id=111&searchtext=">
          <img class="workshopItemPreviewImage" src="https://img/1.png"></a>
        <div class="workshopItemTitle"> First Mod </div>
        <div class="workshopItemAuthorName">by <a href="#">Alice</a></div>
      </div>
      <div class="workshopItem">
        <a class="ugc" href="https://steamcommunity.com/sharedfiles/filedetails/">no id</a>
        <div class="workshopItemTitle">Skipped</div>
      </div>
      <div class="workshopItem">
        <a class="ugc" href="?id=222"></a>
        <div class="workshopItemTitle">Second</div>
      </div>
      <a class="pagebtn" href="?p=1">&lt;</a><a class="pagebtn" href="?p=3"> &gt; </a>
    </body></html>"##;
    let (items, has_next) = parse_page(html).unwrap();
    assert!(has_next);
    assert_eq!(items.len(), 2);
    assert_eq!(items[0].id, 111);
    assert_eq!(items[0].title, "First Mod");
    assert_eq!(items[0].author, "Alice");
    assert_eq!(items[0].preview_url, "https://img/1.png");
    assert_eq!(items[1].id, 222);
    assert_eq!(items[1].author, "");
    let (none, more) = parse_page("<html></html>").unwrap();
    assert!(none.is_empty() && !more);
}

#[test]
fn collections_page_is_read() {
    let html = r##"<html><body>
      <a class="workshopItemCollection ugc" data-publishedfileid="900">
        <div class="workshopItem">
          <img class="workshopItemPreviewImage" src="p.jpg">
          <div class="workshopItemTitle">Pack</div>
          <div class="workshopItemAuthorName"> Bob </div>
        </div>
      </a>
      <a class="workshopItemCollection ugc" data-publishedfileid="nope"></a>
      <a class="pagebtn">&lt;</a>
    </body></html>"##;
    let (items, has_next) = parse_collections_page(html).unwrap();
    assert!(!has_next);
    assert_eq!(
        items,
        vec![CollectionItem { id: 900, title: "Pack".into(), author: "Bob".into(), preview_url: "p.jpg".into() }]
    );
}

#[test]
fn collection_answers() {
    let body = r#"{"response":{"collectiondetails":[{"title":"My Pack","children":[
        {"publishedfileid":"10"},{"publishedfileid":"x"},{"other":1},{"publishedfileid":"20"}]}]}}"#;
    assert_eq!(parse_collection_response(body), Ok(("My Pack".to_string(), vec![10, 20])));
    let untitled = r#"{"response":{"collectiondetails":[{"children":[]}]}}"#;
    assert_eq!(parse_collection_response(untitled), Ok(("Collection".to_string(), vec![])));
    let empty = r#"{"response":{"collectiondetails":[{"result":9}]}}"#;
    assert_eq!(parse_collection_response(empty), Err(WorkshopError::EmptyCollection));
    assert!(matches!(parse_collection_response("not json"), Err(WorkshopError::Json(_))));
}

#[test]
fn details_answers() {
    let body = r#"{"response":{"publishedfiledetails":[
        {"publishedfileid":"10","title":"A","preview_url":"u"},
        {"publishedfileid":"bad","title":"B"},
        {"publishedfileid":"30"}]}}"#;
    assert_eq!(
        parse_details_response(body),
        Ok(vec![
            WorkshopItem { id: 10, title: "A".into(), author: String::new(), preview_url: "u".into() },
            WorkshopItem { id: 30, title: String::new(), author: String::new(), preview_url: String::new() },
        ])
    );
    assert_eq!(parse_details_response(r#"{"response":{}}"#), Err(WorkshopError::NoItemDetails));
    assert!(matches!(parse_details_response("{"), Err(WorkshopError::Json(_))));
}

#[test]
fn answer_fields() {
    assert_eq!(
        collection_from_fields(None, Some(vec![Some("5".into()), None, Some("+6".into())])),
        Ok(("Collection".to_string(), vec![5, 6]))
    );
    assert_eq!(collection_from_fields(Some("T".into()), None), Err(WorkshopError::EmptyCollection));
    assert_eq!(
        items_from_details(&vec![DetailFields { id: Some("1".into()), title: None, preview_url: Some("p".into()) }]),
        vec![WorkshopItem { id: 1, title: String::new(), author: String::new(), preview_url: "p".into() }]
    );
}

#[test]
fn error_messages() {
    assert_eq!(WorkshopError::Http("timeout".into()).message(), "HTTP ошибка: timeout");
    assert_eq!(WorkshopError::Json("bad".into()).message(), "bad");
    assert_eq!(WorkshopError::EmptyCollection.message(), "Сборка пустая или недоступна");
    assert_eq!(WorkshopError::NoItemDetails.message(), "Нет данных о модах сборки");
    assert_eq!(WorkshopError::BadSelector.message(), "invalid CSS selector");
}

#[test]
fn browser_paging() {
    let mut b = BrowserState::new();
    assert_eq!(b.page(), 1);
    assert_eq!(b.state(), &FetchState::Idle);
    let first = b.first_show().unwrap();
    assert_eq!(
        first,
        FetchRequest { query: String::new(), page: 1, sort: SortOrder::Trending, generation: 1 }
    );
    assert!(b.first_show().is_none());
    assert_eq!(b.state(), &FetchState::Loading);
    assert!(b.next_page().is_none());
    b.finish_fetch_for(&first, Ok((vec![], true)));
    assert!(b.has_next());
    let req = b.next_page().unwrap();
    assert_eq!(req.page, 2);
    assert!(b.has_prev());
    b.finish_fetch_for(&req, Err("offline".into()));
    assert_eq!(b.state(), &FetchState::Error("offline".into()));
    let req = b.prev_page().unwrap();
    assert_eq!(req.page, 1);
    assert!(!b.has_prev());
    assert!(b.prev_page().is_none());
    b.set_search_input("harmony".into());
    let req = b.choose_sort(SortOrder::Latest);
    assert_eq!(
        req,
        FetchRequest { query: "harmony".into(), page: 1, sort: SortOrder::Latest, generation: 4 }
    );
    assert_eq!(
        b.search(),
        FetchRequest { query: "harmony".into(), page: 1, sort: SortOrder::Latest, generation: 5 }
    );
}

#[test]
fn stale_answers_are_dropped() {
    let mut b = BrowserState::new();
    let old = b.search();
    b.set_search_input("newer".into());
    let new = b.search();
    b.finish_fetch_for(&old, Ok((vec![], true)));
    assert_eq!(b.state(), &FetchState::Loading);
    assert!(!b.has_next());
    b.finish_fetch_for(&new, Err("offline".into()));
    assert_eq!(b.state(), &FetchState::Error("offline".into()));
    b.finish_fetch_for(&old, Ok((vec![], true)));
    assert_eq!(b.state(), &FetchState::Error("offline".into()));
}

#[test]
fn browser_queue() {
    let mut b = BrowserState::new();
    b.enqueue(5, "Five".into());
    b.enqueue(6, "Six".into());
    b.enqueue(5, "Again".into());
    assert_eq!(b.queue(), &vec![(5, "Five".to_string()), (6, "Six".to_string())]);
    assert!(b.is_queued(6));
    b.enqueue(7, "Seven".into());
    b.dequeue(7);
    assert_eq!(b.queue().len(), 2);
    b.dequeue(5);
    assert!(!b.is_queued(5));
    b.enqueue(9, "Nine".into());
    assert_eq!(b.take_download(), vec![6, 9]);
    assert!(b.queue().is_empty());
    b.enqueue(1, "One".into());
    b.clear_queue();
    assert!(b.queue().is_empty());
}

#[test]
fn queue_tags() {
    assert_eq!(queue_tag("Short"), "Short");
    assert_eq!(queue_tag("A title that is far too long"), "A title that is far to…");
    assert_eq!(queue_tag("Мод для игры"), "Мод для игры");
    assert_eq!(queue_tag("Мод для игры RimWorld"), "Мод для игры…");
}

#[test]
fn browser_results_pane() {
    let mut b = BrowserState::new();
    assert_eq!(b.results_pane(), ResultsPane::Prompt);
    let q = b.first_show().unwrap();
    assert_eq!(b.results_pane(), ResultsPane::Waiting);
    b.finish_fetch_for(&q, Err("HTTP ошибка: timeout".into()));
    assert_eq!(b.results_pane(), ResultsPane::Failed("✕ HTTP ошибка: timeout".into()));
    let q = b.search();
    b.finish_fetch_for(&q, Ok((vec![], false)));
    assert_eq!(b.results_pane(), ResultsPane::NothingFound);
    let q = b.search();
    let item = WorkshopItem {
        id: 7,
        title: "Seven".into(),
        author: "a".into(),
        preview_url: String::new(),
    };
    b.finish_fetch_for(&q, Ok((vec![item], false)));
    assert_eq!(b.results_pane(), ResultsPane::Cards);
}

#[test]
fn browser_queue_caption() {
    let mut b = BrowserState::new();
    assert_eq!(b.queue_caption(), "Очередь: 0  ");
    b.enqueue(1, "One".into());
    b.enqueue(2, "Two".into());
    b.enqueue(2, "Two again".into());
    assert_eq!(b.queue_caption(), "Очередь: 2  ");
}

#[test]
fn web_api_methods() {
    assert_eq!(
        COLLECTION_DETAILS_URL,
        "https://api.steampowered.com/ISteamRemoteStorage/GetCollectionDetails/v1/"
    );
    assert_eq!(
        FILE_DETAILS_URL,
        "https://api.steampowered.com/ISteamRemoteStorage/GetPublishedFileDetails/v1/"
    );
}

#[test]
fn paging_round_trip() {
    let mut b = BrowserState::new();
    b.set_search_input("tools".into());
    b.enqueue(3, "Three".into());
    let q = b.search();
    b.finish_fetch_for(&q, Ok((vec![], true)));
    let forward = b.next_page().unwrap();
    assert_eq!(forward.page, 2);
    b.finish_fetch_for(&forward, Ok((vec![], true)));
    let back = b.prev_page().unwrap();
    assert_eq!(
        back,
        FetchRequest { query: "tools".into(), page: 1, sort: SortOrder::Trending, generation: 3 }
    );
    assert_eq!(b.page(), 1);
    assert!(!b.has_prev());
    assert_eq!(b.state(), &FetchState::Loading);
    assert_eq!(b.queue(), &vec![(3, "Three".to_string())]);
}

fn card(id_text: Option<&str>, title: &str) -> CardFields {
    CardFields {
        id_text: id_text.map(|s| s.to_string()),
        preview_src: Some(format!("https://img/{title}.jpg")),
        title_text: Some(format!("  {title}\n")),
        author_text: None,
    }
}

#[test]
fn cards_become_listings() {
    let cards = vec![
        card(Some("https://steamcommunity.com/sharedfiles/filedetails/?id=11&searchtext="), "One"),
        card(None, "NoLink"),
        card(Some("https://x/?id=abc"), "Bad"),
        card(Some("https://x/?id=22"), "Two"),
    ];
    let items = items_from_cards(&cards);
    assert_eq!(
        items,
        vec![
            WorkshopItem {
                id: 11,
                title: "One".into(),
                author: String::new(),
                preview_url: "https://img/One.jpg".into()
            },
            WorkshopItem {
                id: 22,
                title: "Two".into(),
                author: String::new(),
                preview_url: "https://img/Two.jpg".into()
            },
        ]
    );
    let colls = vec![card(Some("5"), "Five"), card(Some("0"), "Zero"), card(Some("x"), "X")];
    assert_eq!(
        collections_from_cards(&colls),
        vec![CollectionItem {
            id: 5,
            title: "Five".into(),
            author: String::new(),
            preview_url: "https://img/Five.jpg".into()
        }]
    );
}

#[test]
fn page_selectors_are_accepted() {
    assert!(rust_rim::workshop::item_selectors_check());
    assert!(rust_rim::workshop::collection_selectors_check());
}

fn form_decode(s: &str) -> Vec<u8> {
    let b = s.as_bytes();
    let mut out = Vec::new();
    let mut i = 0;
    while i < b.len() {
        if b[i] == b'+' {
            out.push(b' ');
            i += 1;
        } else if b[i] == b'%' && i + 2 < b.len() {
            out.push(u8::from_str_radix(&s[i + 1..i + 3], 16).unwrap());
            i += 3;
        } else {
            out.push(b[i]);
            i += 1;
        }
    }
    out
}

#[test]
fn url_encoding_decodes_back() {
    for s in ["", "harmony", "a b+c%d", "Мод для игры", "x&y=z/?#~._-", "100%"] {
        assert_eq!(form_decode(&url_encode(s)), s.as_bytes().to_vec());
    }
}

#[test]
fn json_lookups() {
    let j = Json::Object(vec![
        ("a".to_string(), Json::Array(vec![Json::Str("x".into()), Json::Null])),
        ("b".to_string(), Json::Number("3".into())),
    ]);
    let a = get_member(Some(&j), "a");
    assert_eq!(array_of(a).map(|v| v.len()), Some(2));
    assert_eq!(str_of(get_element(a, 0)), Some("x".to_string()));
    assert!(get_element(a, 5).is_none());
    assert!(get_member(Some(&j), "missing").is_none());
    assert_eq!(str_of(get_member(Some(&j), "b")), None);
}
