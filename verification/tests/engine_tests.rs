use trivium::cache::{clear_ioc_flag_cache, clear_searchable_cache, ProjectCaches};
use trivium::engine::{query_rows, QueryRequest, QueryRowsResponse};
use trivium::flags::FlagEntry;
use trivium::ioc::IocEntry;
use trivium::store::{load_flags, update_flag, FlagStore};
use trivium::table::{Column, Table};
use trivium::value::Cell;

fn text_col(name: &str, cells: &[&str]) -> Column {
    Column {
        name: name.to_string(),
        cells: cells.iter().map(|c| Cell::Text(c.to_string())).collect(),
    }
}

fn host_user_event_table() -> Table {
    Table::new(vec![
        text_col("host", &["WS01", "WS02"]),
        text_col("user", &["alice", "bob"]),
        text_col("event", &["login", "logout"]),
    ])
    .unwrap()
}

fn req() -> QueryRequest {
    QueryRequest {
        search: None,
        columns: None,
        flag_filter: None,
        offset: None,
        limit: None,
        sort_key: None,
        sort_desc: false,
    }
}

fn run(table: &Table, flags: &FlagStore, iocs: &Vec<IocEntry>, request: &QueryRequest) -> QueryRowsResponse {
    let mut caches = ProjectCaches::new();
    query_rows(table, flags, iocs, &mut caches, request)
}

#[test]
fn trivial_query_returns_all_rows_in_order() {
    let table = host_user_event_table();
    let flags = FlagStore::new();
    let iocs: Vec<IocEntry> = Vec::new();
    let r = run(&table, &flags, &iocs, &req());
    assert_eq!(r.total_rows, 2);
    assert_eq!(r.total_filtered_rows, 2);
    assert_eq!(r.total_flagged, 0);
    assert_eq!(r.offset, 0);
    let idxs: Vec<usize> = r.rows.iter().map(|row| row.row_index).collect();
    assert_eq!(idxs, [0, 1]);
    assert_eq!(r.rows[0].data.len(), 3);
    assert_eq!(r.rows[0].flag, "");
    assert!(r.rows[0].memo.is_none());
}

#[test]
fn search_on_missing_column_filters_everything() {
    // Scenario: search `com:WS01|WS02` with no such column.
    let table = host_user_event_table();
    let flags = FlagStore::new();
    let iocs: Vec<IocEntry> = Vec::new();
    let mut request = req();
    request.search = Some("com:WS01|WS02".to_string());
    let r = run(&table, &flags, &iocs, &request);
    assert_eq!(r.total_filtered_rows, 0);
    assert!(r.rows.is_empty());
}

#[test]
fn search_with_column_carry_over_matches_both() {
    // Scenario: search `host:WS01|WS02` keeps both rows.
    let table = host_user_event_table();
    let flags = FlagStore::new();
    let iocs: Vec<IocEntry> = Vec::new();
    let mut request = req();
    request.search = Some("host:WS01|WS02".to_string());
    let r = run(&table, &flags, &iocs, &request);
    assert_eq!(r.total_filtered_rows, 2);
}

#[test]
fn ioc_overlay_sets_flag_and_memo() {
    // Scenario: rows (A,x,malware), (B,y,clean); rule {critical,"mal","malware"}.
    let table = Table::new(vec![
        text_col("host", &["A", "B"]),
        text_col("user", &["x", "y"]),
        text_col("event", &["malware", "clean"]),
    ])
    .unwrap();
    let flags = FlagStore::new();
    let iocs = vec![IocEntry {
        flag: "critical".to_string(),
        tag: "mal".to_string(),
        query: "malware".to_string(),
    }];
    let r = run(&table, &flags, &iocs, &req());
    assert_eq!(r.total_flagged, 1);
    assert_eq!(r.rows[0].flag, "critical");
    assert_eq!(r.rows[0].memo.as_deref(), Some("[mal]"));
    assert_eq!(r.rows[1].flag, "");
    assert!(r.rows[1].memo.is_none());
}

#[test]
fn user_flag_wins_and_memo_stays_verbatim() {
    // Scenario: same table plus user flag {row 0: suspicious, memo "benign"}.
    let table = Table::new(vec![
        text_col("host", &["A", "B"]),
        text_col("user", &["x", "y"]),
        text_col("event", &["malware", "clean"]),
    ])
    .unwrap();
    let mut flags = FlagStore::new();
    flags.upsert_flag(
        0,
        FlagEntry {
            flag: "suspicious".to_string(),
            memo: Some("benign".to_string()),
        },
    );
    let iocs = vec![IocEntry {
        flag: "critical".to_string(),
        tag: "mal".to_string(),
        query: "malware".to_string(),
    }];
    let r = run(&table, &flags, &iocs, &req());
    assert_eq!(r.rows[0].flag, "suspicious");
    assert_eq!(r.rows[0].memo.as_deref(), Some("benign"));
    assert_eq!(r.rows[1].flag, "");
}

#[test]
fn numeric_sort_strips_separators() {
    // Scenario: score column "1,000", "200", "30" sorts numerically ascending.
    let table = Table::new(vec![text_col("score", &["1,000", "200", "30"])]).unwrap();
    let flags = FlagStore::new();
    let iocs: Vec<IocEntry> = Vec::new();
    let mut request = req();
    request.sort_key = Some("score".to_string());
    let r = run(&table, &flags, &iocs, &request);
    let idxs: Vec<usize> = r.rows.iter().map(|row| row.row_index).collect();
    assert_eq!(idxs, [2, 1, 0]);
}

#[test]
fn numeric_sort_descending() {
    let table = Table::new(vec![text_col("score", &["5", "0.5", "-2", "50"])]).unwrap();
    let flags = FlagStore::new();
    let iocs: Vec<IocEntry> = Vec::new();
    let mut request = req();
    request.sort_key = Some("score".to_string());
    request.sort_desc = true;
    let r = run(&table, &flags, &iocs, &request);
    let idxs: Vec<usize> = r.rows.iter().map(|row| row.row_index).collect();
    assert_eq!(idxs, [3, 0, 1, 2]);
}

#[test]
fn text_sorts_after_numbers_and_missing_last() {
    let table = Table::new(vec![Column {
        name: "v".to_string(),
        cells: vec![
            Cell::Text("zeta".to_string()),
            Cell::Text("10".to_string()),
            Cell::Null,
            Cell::Text("Alpha".to_string()),
        ],
    }])
    .unwrap();
    let flags = FlagStore::new();
    let iocs: Vec<IocEntry> = Vec::new();
    let mut request = req();
    request.sort_key = Some("v".to_string());
    let r = run(&table, &flags, &iocs, &request);
    let idxs: Vec<usize> = r.rows.iter().map(|row| row.row_index).collect();
    assert_eq!(idxs, [1, 3, 0, 2]);
}

#[test]
fn flag_filter_selects_kinds() {
    let table = host_user_event_table();
    let mut flags = FlagStore::new();
    flags.upsert_flag(
        0,
        FlagEntry {
            flag: "critical".to_string(),
            memo: None,
        },
    );
    let iocs: Vec<IocEntry> = Vec::new();
    let mut request = req();
    request.flag_filter = Some("critical".to_string());
    let r = run(&table, &flags, &iocs, &request);
    assert_eq!(r.total_filtered_rows, 1);
    assert_eq!(r.rows[0].row_index, 0);
    assert_eq!(r.total_flagged, 1);

    let mut request = req();
    request.flag_filter = Some("none".to_string());
    let r = run(&table, &flags, &iocs, &request);
    assert_eq!(r.total_filtered_rows, 1);
    assert_eq!(r.rows[0].row_index, 1);
}

#[test]
fn limit_clamps_and_floors() {
    // A limit beyond the available rows clamps without error.
    let table = host_user_event_table();
    let flags = FlagStore::new();
    let iocs: Vec<IocEntry> = Vec::new();
    let mut request = req();
    request.limit = Some(100);
    let r = run(&table, &flags, &iocs, &request);
    assert_eq!(r.rows.len(), 2);
    // A zero limit is floored at one row.
    let mut request = req();
    request.limit = Some(0);
    let r = run(&table, &flags, &iocs, &request);
    assert_eq!(r.rows.len(), 1);
}

#[test]
fn paging_concatenates_to_full_list() {
    let names: Vec<&str> = vec!["r0", "r1", "r2", "r3", "r4"];
    let table = Table::new(vec![text_col("name", &names)]).unwrap();
    let flags = FlagStore::new();
    let iocs: Vec<IocEntry> = Vec::new();
    let mut seen: Vec<usize> = Vec::new();
    for page in 0..3 {
        let mut request = req();
        request.limit = Some(2);
        request.offset = Some(page * 2);
        let r = run(&table, &flags, &iocs, &request);
        seen.extend(r.rows.iter().map(|row| row.row_index));
    }
    assert_eq!(seen, [0, 1, 2, 3, 4]);
}

#[test]
fn operator_only_search_behaves_as_empty() {
    let table = host_user_event_table();
    let flags = FlagStore::new();
    let iocs: Vec<IocEntry> = Vec::new();
    for q in ["|", "||", " | ", "   "] {
        let mut request = req();
        request.search = Some(q.to_string());
        let r = run(&table, &flags, &iocs, &request);
        assert_eq!(r.total_filtered_rows, 2, "search {:?}", q);
    }
}

#[test]
fn unicode_case_folding_in_search() {
    let table = Table::new(vec![text_col("name", &["\u{0421}\u{0415}\u{0420}\u{0413}\u{0415}\u{0419}", "anna"])])
        .unwrap();
    // The row text holds the uppercase Cyrillic name; a lowercase query matches.
    let flags = FlagStore::new();
    let iocs: Vec<IocEntry> = Vec::new();
    let mut request = req();
    request.search = Some("\u{0441}\u{0435}\u{0440}\u{0433}\u{0435}\u{0439}".to_string());
    let r = run(&table, &flags, &iocs, &request);
    assert_eq!(r.total_filtered_rows, 1);
    assert_eq!(r.rows[0].row_index, 0);
}

#[test]
fn ioc_cache_rebuild_is_stable() {
    let table = Table::new(vec![text_col("event", &["malware", "clean", "malware drop"])]).unwrap();
    let flags = FlagStore::new();
    let iocs = vec![IocEntry {
        flag: "suspicious".to_string(),
        tag: "m".to_string(),
        query: "malware".to_string(),
    }];
    let mut caches = ProjectCaches::new();
    let r1 = query_rows(&table, &flags, &iocs, &mut caches, &req());
    let first = caches.ioc_flags.clone();
    assert!(first.is_some());
    // Invalidate and rebuild: the cached vector comes out the same.
    clear_ioc_flag_cache(&mut caches);
    assert!(caches.ioc_flags.is_none());
    let r2 = query_rows(&table, &flags, &iocs, &mut caches, &req());
    assert_eq!(format!("{:?}", caches.ioc_flags), format!("{:?}", first));
    assert_eq!(r1.total_flagged, r2.total_flagged);
    clear_searchable_cache(&mut caches);
    assert!(caches.row_text.is_none());
}

#[test]
fn store_update_and_removal() {
    // An update with blank flag and memo removes the entry.
    let mut store = FlagStore::new();
    update_flag(&mut store, 4, &"suspicious".to_string(), &Some("check".to_string()));
    assert!(store.get_flag(4).is_some());
    update_flag(&mut store, 4, &String::new(), &Some("  ".to_string()));
    assert!(store.get_flag(4).is_none());
    // Updates normalise the stored flag.
    update_flag(&mut store, 2, &" CRITICAL ".to_string(), &None);
    assert_eq!(store.get_flag(2).unwrap().flag, "critical");
    assert_eq!(store.count_flagged(), 1);
}

#[test]
fn count_flagged_ignores_unrecognised_flags() {
    // Only flags that normalise to a kind count; junk text does not.
    let mut store = FlagStore::new();
    store.upsert_flag(
        0,
        FlagEntry {
            flag: "junk".to_string(),
            memo: None,
        },
    );
    store.upsert_flag(
        1,
        FlagEntry {
            flag: " SAFE ".to_string(),
            memo: None,
        },
    );
    assert_eq!(store.count_flagged(), 1);
}

#[test]
fn stale_ioc_cache_never_taints_user_memos() {
    // Even with a warm IOC cache whose entry coincides with the user flag,
    // a user-flagged row's memo stays verbatim.
    let table = Table::new(vec![
        text_col("host", &["A", "B"]),
        text_col("event", &["malware", "clean"]),
    ])
    .unwrap();
    let mut flags = FlagStore::new();
    flags.upsert_flag(
        0,
        FlagEntry {
            flag: "critical".to_string(),
            memo: Some("benign".to_string()),
        },
    );
    let iocs = vec![IocEntry {
        flag: "critical".to_string(),
        tag: "mal".to_string(),
        query: "malware".to_string(),
    }];
    let mut caches = ProjectCaches {
        row_text: None,
        ioc_flags: Some(vec![
            trivium::flags::FlagKind::Critical,
            trivium::flags::FlagKind::Empty,
        ]),
    };
    let r = query_rows(&table, &flags, &iocs, &mut caches, &req());
    assert_eq!(r.rows[0].flag, "critical");
    assert_eq!(r.rows[0].memo.as_deref(), Some("benign"));
}

#[test]
fn row_text_cache_stays_cold_when_unneeded() {
    // Without a search and without IOC rules the row text is never built, so
    // the cache is left untouched; a search with terms installs it.
    let table = host_user_event_table();
    let flags = FlagStore::new();
    let iocs: Vec<IocEntry> = Vec::new();
    let mut caches = ProjectCaches::new();
    query_rows(&table, &flags, &iocs, &mut caches, &req());
    assert!(caches.row_text.is_none());
    let mut request = req();
    request.search = Some("alice".to_string());
    query_rows(&table, &flags, &iocs, &mut caches, &request);
    assert_eq!(caches.row_text.as_ref().unwrap().len(), 2);
}

#[test]
fn store_load_keeps_last_pair() {
    let pairs = vec![
        (
            1usize,
            FlagEntry {
                flag: "safe".to_string(),
                memo: None,
            },
        ),
        (
            1usize,
            FlagEntry {
                flag: "critical".to_string(),
                memo: Some("later".to_string()),
            },
        ),
    ];
    let store = load_flags(&pairs);
    let e = store.get_flag(1).unwrap();
    assert_eq!(e.flag, "critical");
    assert_eq!(e.memo.as_deref(), Some("later"));
}

#[test]
fn column_width_metrics() {
    let table = Table::new(vec![
        Column {
            name: "id".to_string(),
            cells: vec![Cell::Int(7), Cell::Int(12345)],
        },
        Column {
            name: "word".to_string(),
            cells: vec![Cell::Text("hi".to_string()), Cell::Null],
        },
    ])
    .unwrap();
    let metrics = trivium::table::compute_column_max_chars(&table);
    assert_eq!(metrics.len(), 2);
    assert_eq!(metrics[0].0, "id");
    assert_eq!(metrics[0].1, 5);
    assert_eq!(metrics[1].0, "word");
    assert_eq!(metrics[1].1, 4);
}

#[test]
fn scope_columns_limit_the_row_text() {
    // With the scope restricted to `host`, text from other columns is not
    // searchable.
    let table = host_user_event_table();
    let flags = FlagStore::new();
    let iocs: Vec<IocEntry> = Vec::new();
    let mut request = req();
    request.columns = Some(vec!["host".to_string()]);
    request.search = Some("login".to_string());
    let r = run(&table, &flags, &iocs, &request);
    assert_eq!(r.total_filtered_rows, 0);
    let mut request = req();
    request.columns = Some(vec!["host".to_string()]);
    request.search = Some("ws02".to_string());
    let r = run(&table, &flags, &iocs, &request);
    assert_eq!(r.total_filtered_rows, 1);
}

#[test]
fn stale_row_text_cache_is_rebuilt() {
    let table = host_user_event_table();
    let flags = FlagStore::new();
    let iocs: Vec<IocEntry> = Vec::new();
    let mut caches = ProjectCaches {
        row_text: Some(vec!["wrong length".to_string()]),
        ioc_flags: None,
    };
    let mut request = req();
    request.search = Some("alice".to_string());
    let r = query_rows(&table, &flags, &iocs, &mut caches, &request);
    assert_eq!(r.total_filtered_rows, 1);
    assert_eq!(caches.row_text.as_ref().unwrap().len(), 2);
}

#[test]
fn row_key_codec_round_trips() {
    for row in [0usize, 1, 255, 256, 90210, usize::MAX] {
        let key = trivium::store::encode_row_key(row);
        assert_eq!(key.len(), 8);
        assert_eq!(trivium::store::decode_row_key(&key), Some(row));
    }
    assert_eq!(trivium::store::decode_row_key(&vec![1, 2, 3]), None);
    assert_eq!(trivium::store::encode_row_key(258), vec![0, 0, 0, 0, 0, 0, 1, 2]);
}
