use trivium::codec::{read_ioc_csv, write_ioc_csv};
use trivium::ioc::{
    apply_iocs_to_rows, calculate_ioc_applied_records, prepare_ioc_entries, row_contains_query,
    IocEntry,
};
use trivium::store::{FlagStore, update_flag};
use trivium::table::{Column, ProjectRow, Table};
use trivium::value::Cell;

fn entry(flag: &str, tag: &str, query: &str) -> IocEntry {
    IocEntry {
        flag: flag.to_string(),
        tag: tag.to_string(),
        query: query.to_string(),
    }
}

fn row(host: &str, event: &str) -> ProjectRow {
    ProjectRow {
        row_index: 0,
        data: vec![
            ("host".to_string(), Cell::Text(host.to_string())),
            ("event".to_string(), Cell::Text(event.to_string())),
        ],
        flag: String::new(),
        memo: None,
    }
}

#[test]
fn prepare_normalises_filters_and_sorts() {
    let prepared = prepare_ioc_entries(vec![
        entry(" CRITICAL ", " zeta ", "  boom  "),
        entry("junk", "alpha", "  "),
        entry("safe", "beta", "ok"),
        entry("?", "alpha2", "probe"),
    ]);
    let tags: Vec<&str> = prepared.iter().map(|e| e.tag.as_str()).collect();
    assert_eq!(tags, ["alpha2", "beta", "zeta"]);
    assert_eq!(prepared[2].flag, "critical");
    assert_eq!(prepared[2].query, "boom");
    assert_eq!(prepared[0].flag, "suspicious");
}

#[test]
fn row_matching() {
    let r = row("WS09", "powershell download");
    assert!(row_contains_query(&r, "powershell"));
    assert!(row_contains_query(&r, "host:ws09"));
    assert!(!row_contains_query(&r, "host:download"));
    assert!(row_contains_query(&r, "download|nothing"));
    assert!(!row_contains_query(&r, "  "));
    assert!(!row_contains_query(&r, "-powershell download"));
}

#[test]
fn apply_overlay_to_rows() {
    let mut rows = vec![row("a", "malware beacon"), row("b", "clean beacon")];
    rows[1].flag = "safe".to_string();
    rows[1].memo = Some("looked at".to_string());
    let entries = vec![
        entry("critical", "mal", "malware"),
        entry("suspicious", "net", "beacon"),
    ];
    apply_iocs_to_rows(&mut rows, &entries);
    // First matching rule with a flag wins; both tags land in the memo.
    assert_eq!(rows[0].flag, "critical");
    assert_eq!(rows[0].memo.as_deref(), Some("[mal] [net]"));
    // The user-flagged row keeps its flag and its memo verbatim, even though
    // the second rule matches it.
    assert_eq!(rows[1].flag, "safe");
    assert_eq!(rows[1].memo.as_deref(), Some("looked at"));
}

#[test]
fn applied_record_count_skips_user_flagged() {
    let table = Table::new(vec![Column {
        name: "event".to_string(),
        cells: vec![
            Cell::Text("malware".to_string()),
            Cell::Text("malware".to_string()),
            Cell::Text("clean".to_string()),
        ],
    }])
    .unwrap();
    let mut flags = FlagStore::new();
    update_flag(&mut flags, 0, &"safe".to_string(), &None);
    let iocs = vec![entry("critical", "m", "malware")];
    // Row 0 has a user flag, row 1 matches, row 2 does not.
    assert_eq!(calculate_ioc_applied_records(&table, &flags, &iocs), 1);
    let none: Vec<IocEntry> = Vec::new();
    assert_eq!(calculate_ioc_applied_records(&table, &flags, &none), 0);
}

#[test]
fn csv_round_trip_is_identity_on_prepared_rules() {
    let prepared = prepare_ioc_entries(vec![
        entry("critical", "quote\"tag", "say \"hi\""),
        entry("safe", "commas", "a,b AND newline"),
        entry("suspicious", "multi", "line1\nline2"),
        entry("", "plain", "host:ws01|ws02"),
    ]);
    let text = write_ioc_csv(&prepared);
    let back = read_ioc_csv(&text).unwrap();
    assert_eq!(back.len(), prepared.len());
    for (a, b) in prepared.iter().zip(back.iter()) {
        assert_eq!(a.flag, b.flag);
        assert_eq!(a.tag, b.tag);
        assert_eq!(a.query, b.query);
    }
}

#[test]
fn csv_reader_accepts_bare_fields() {
    let text = "flag,tag,query\ncritical,mal,malware\n,skipme,\nsafe,ok,clean";
    let rules = read_ioc_csv(text).unwrap();
    assert_eq!(rules.len(), 2);
    assert_eq!(rules[0].flag, "critical");
    assert_eq!(rules[0].tag, "mal");
    assert_eq!(rules[0].query, "malware");
    assert_eq!(rules[1].flag, "safe");
}

#[test]
fn csv_reader_rejects_malformed_input() {
    assert!(read_ioc_csv("flag,tag,query\n\"unterminated,a,b\n").is_err());
    assert!(read_ioc_csv("flag,tag\nonly,two\n").is_err());
}

#[test]
fn csv_empty_input_is_empty() {
    assert!(read_ioc_csv("").unwrap().is_empty());
    assert!(read_ioc_csv("flag,tag,query\n").unwrap().is_empty());
}

#[test]
fn csv_writer_quotes_only_when_needed() {
    let entries = vec![
        entry("critical", "mal", "malware"),
        entry("safe", "a,b", "say \"hi\""),
    ];
    let text = write_ioc_csv(&entries);
    assert_eq!(
        text,
        "flag,tag,query\ncritical,mal,malware\nsafe,\"a,b\",\"say \"\"hi\"\"\"\n"
    );
}
