use flate2::read::GzDecoder;
use flate2::write::GzEncoder;
use flate2::Compression;
use regex::Regex;
use runic::workloads::async_server::{self, collected, respond, serve};
use runic::workloads::compress_roundtrip::{compress_roundtrip, fold_output, roundtrip};
use runic::workloads::csv_pipeline::{aggregate, csv_pipeline};
use runic::workloads::http::{collect_headers, to_lower, HttpRequest};
use runic::workloads::http_parse::{answer, http_parse};
use runic::workloads::json_api::{count_items, json_api, walk};
use runic::workloads::log_pipeline::{self, parse, produce, record};
use runic::workloads::regex_search::regex_search;
use runic::workloads::text::numbered;
use runic::workloads::toml_config::{count_pools, rewrite, toml_config};
use std::collections::{HashMap, HashSet};
use std::io::{Read, Write};

fn request(path: Option<&[u8]>, headers: &[(&[u8], &[u8])]) -> HttpRequest {
    HttpRequest {
        head: 40,
        path: path.map(|path| path.to_vec()),
        headers: headers
            .iter()
            .map(|(name, value)| (name.to_vec(), value.to_vec()))
            .collect(),
    }
}

#[test]
fn headers_are_lowered_and_checked() {
    let read = request(
        Some(b"/"),
        &[
            (b"Host", b"first"),
            (b"HOST", b"second"),
            (b"X-Raw", &[0xff, 0xfe]),
        ],
    );
    let map = collect_headers(&read);
    assert_eq!(map.len(), 1);
    assert_eq!(map.get(b"host"), Some(&b"second".to_vec()));
    assert!(map.get(b"x-raw").is_none());
    assert_eq!(to_lower(b"A-z\xc0"), b"a-z\xc0");
}

#[test]
fn requests_are_answered_over_http() {
    let read = request(Some(b"/api"), &[(b"X-Request-Id", b"123")]);
    let body = "{\"id\":5,\"round\":2,\"path\":\"/api\",\"headers\":1}";
    let head = "HTTP/1.1 200 OK\r\nContent-Type: application/json\r\nContent-Length: ";
    let len = head.len() + body.len().to_string().len() + 4 + body.len();
    assert_eq!(answer(&read, 5, 2), 4 ^ 1 ^ len ^ 3);

    let (rounds, requests) = (3, 20);
    let mut checksum = 0_usize;
    for round in 0..rounds {
        for i in 0..requests {
            let path = format!("/api/items/{}?round={round}", i % 10_000);
            let body = format!(
                "{{\"id\":{i},\"round\":{round},\"path\":\"{path}\",\"headers\":4}}"
            );
            let response = format!("{head}{}\r\n\r\n{body}", body.len());
            checksum ^= path.len() ^ 4 ^ response.len() ^ (i ^ round).to_string().len();
        }
    }
    assert_eq!(http_parse(rounds, requests), checksum);
}

#[test]
fn connections_are_served() {
    let (head, response) = serve(2, 9, 1).unwrap();
    let raw = "GET /item/9?conn=2 HTTP/1.1\r\nhost: bench.local\r\nuser-agent: runic/1\r\naccept: */*\r\n\r\n";
    assert_eq!(head, raw.len());
    let body = "{\"host\":\"bench.local\",\"path\":\"/item/9?conn=2\",\"seq\":9}";
    let expected = format!(
        "HTTP/1.1 200 OK\r\ncontent-type: application/json\r\ncontent-length: {}\r\n\r\n{body}",
        body.len()
    );
    assert_eq!(response, expected.as_bytes());
    assert_eq!(collected(head, &response), raw.len() ^ expected.len());

    let bare = respond(&request(None, &[(b"hOsT", b"here")]), 0);
    assert!(bare.ends_with(b"{\"host\":\"here\",\"path\":\"/\",\"seq\":0}"));
    let unreadable = respond(&request(None, &[(b"host", &[0xff])]), 0);
    assert!(unreadable.ends_with(b"{\"host\":\"bench.local\",\"path\":\"/\",\"seq\":0}"));

    let mut checksum = 0_usize;
    for round in 0..4 {
        for conn in 0..4 {
            for i in 0..256 {
                let (head, response) = serve(conn, i, round).unwrap();
                checksum ^= head ^ response.len();
            }
            checksum ^= 256;
        }
    }
    assert_eq!(async_server::run(), checksum);
}

#[test]
fn tables_are_written_and_read_back() {
    let rows = vec![
        Some(vec![b"1".to_vec(), b"a".to_vec(), b"2".to_vec(), b"30".to_vec()]),
        None,
        Some(vec![b"1".to_vec()]),
        Some(vec![b"1".to_vec(), b"a".to_vec(), b"x".to_vec(), b"30".to_vec()]),
        Some(vec![b"1".to_vec(), b"b".to_vec(), b"3".to_vec(), b"5".to_vec()]),
    ];
    let (totals, count) = aggregate(&rows);
    assert_eq!(count, 3);
    assert_eq!(totals.len(), 2);
    let mut amounts = [totals.amount(0), totals.amount(1)];
    amounts.sort_unstable();
    assert_eq!(amounts, [15, 60]);

    let (rounds, rows) = (3, 40);
    let mut checksum = 0_usize;
    for round in 0..rounds {
        let mut writer = csv::Writer::from_writer(Vec::new());
        writer.write_record(["id", "category", "qty", "price"]).unwrap();
        let mut totals: HashMap<usize, usize> = HashMap::new();
        for i in 0..rows {
            let category = (i + round) % 7;
            let qty = i % 50 + 1;
            let price = (i * 17 + round) % 10_000;
            let fields = [i ^ round, category, qty, price].map(|field| field.to_string());
            writer.write_record(&fields).unwrap();
            *totals.entry(category).or_insert(0) += qty * price;
        }
        checksum ^= writer.into_inner().unwrap().len() ^ rows ^ totals.len();
        for total in totals.values() {
            checksum ^= total;
        }
    }
    assert_eq!(csv_pipeline(rounds, rows), checksum);
    // The header line alone.
    assert_eq!(csv_pipeline(1, 0), 22);
}

#[test]
fn compression_gives_the_payload_back() {
    let (payload, stream) = (vec![0; 4], vec![0; 9]);
    assert_eq!(
        fold_output(&payload, &stream, &vec![1, 2, 4]),
        4 ^ 9 ^ 3 ^ 1 ^ 4
    );
    assert_eq!(fold_output(&payload, &stream, &vec![]), 4 ^ 9);

    let mut checksum = 0_usize;
    for round in 0..2 {
        let mut payload = String::new();
        let mut line = 0_usize;
        while payload.len() < 4 * 1024 {
            payload.push_str(&format!(
                "line={line} round={round} The quick brown fox jumps over the lazy dog.\n"
            ));
            line += 1;
        }
        payload.truncate(4 * 1024);
        let mut encoder = GzEncoder::new(Vec::new(), Compression::default());
        encoder.write_all(payload.as_bytes()).unwrap();
        let compressed = encoder.finish().unwrap();
        let mut output = Vec::new();
        GzDecoder::new(compressed.as_slice())
            .read_to_end(&mut output)
            .unwrap();
        assert_eq!(output, payload.as_bytes());
        let value = payload.len()
            ^ compressed.len()
            ^ output.len()
            ^ usize::from(output[0])
            ^ usize::from(output[output.len() - 1]);
        assert_eq!(roundtrip(&output), value);
        checksum ^= value;
    }
    assert_eq!(compress_roundtrip(2, 4), checksum);
}

#[test]
fn documents_are_written_and_walked() {
    let doc: serde_json::Value = serde_json::from_str("{\"items\":[1,2,3],\"ok\":true}").unwrap();
    assert_eq!(count_items(&doc), 3);
    assert_eq!(walk(&doc), doc.to_string().len() ^ 3);
    let bare: serde_json::Value = serde_json::from_str("{\"items\":{}}").unwrap();
    assert_eq!(count_items(&bare), 0);

    let (rounds, users) = (3, 11);
    let mut checksum = 0_usize;
    for round in 0..rounds {
        let items: Vec<String> = (0..users)
            .map(|i| {
                format!(
                    "{{\"id\":{},\"meta\":{{\"n\":{i},\"round\":{round}}},\"name\":\"user-{i}\",\"tags\":[{},{},\"active\"]}}",
                    i ^ round,
                    round & 3,
                    i % 7
                )
            })
            .collect();
        let text = format!("{{\"items\":[{}],\"ok\":true}}", items.join(","));
        checksum ^= text.len() ^ users;
    }
    assert_eq!(json_api(rounds, users), checksum);
}

#[test]
fn configurations_are_rewritten() {
    let mut pools = toml::map::Map::new();
    pools.insert("a".to_string(), toml::Value::Boolean(true));
    pools.insert("b".to_string(), toml::Value::Integer(4));
    let mut root = toml::map::Map::new();
    root.insert("pools".to_string(), toml::Value::Table(pools));
    let value = toml::Value::Table(root);
    assert_eq!(count_pools(&value), 2);
    assert_eq!(count_pools(&toml::Value::Integer(1)), 0);
    // Written twice, so only the count is left.
    assert_eq!(rewrite(&value), 2);
    let (rounds, entries) = (3, 5);
    assert_eq!(toml_config(rounds, entries), 5 ^ 5 ^ 5);
}

#[test]
fn lines_are_searched() {
    let pattern = Regex::new(r"(?i)\b(error|warn|user_\d+)\b").unwrap();
    let (rounds, lines) = (3, 50);
    let mut checksum = 0_usize;
    for round in 0..rounds {
        let mut haystack = String::new();
        for i in 0..lines {
            haystack.push_str(match (i ^ round) % 5 {
                0 => "ERROR user_",
                1 => "WARN cache miss user_",
                2 => "INFO accepted user_",
                _ => "DEBUG skip user_",
            });
            haystack.push_str(&format!("{}\n", i % 97));
        }
        checksum ^= pattern.find_iter(&haystack).count();
    }
    assert_eq!(regex_search(rounds, lines), checksum);
}

#[test]
fn log_lines_are_parsed() {
    let pattern =
        Regex::new(r"^(\w+) svc=([a-z]+-\d+) user_(\d+) latency=(\d+)ms$").unwrap();
    assert_eq!(produce(2, 1, 5), "ERROR svc=api-7 user_36 latency=6ms");
    assert_eq!(
        parse(&pattern, &produce(2, 1, 5)),
        Some((b"ERROR/api-7".to_vec(), 6))
    );
    assert_eq!(parse(&pattern, "no such line"), None);
    assert_eq!(
        record(&vec![
            Some(b"all".to_vec()),
            Some(b"INFO".to_vec()),
            Some(b"web-1".to_vec()),
            None,
            Some(b"99999999999999999999999".to_vec()),
        ]),
        Some((b"INFO/web-1".to_vec(), 0))
    );
    assert_eq!(record(&vec![None, None, None, None, None]), None);

    let mut checksum = 0_usize;
    for round in 0..4 {
        let mut keys = HashSet::new();
        let mut total = 0_usize;
        for producer in 0..4 {
            for i in 0..1_024 {
                let (key, millis) = parse(&pattern, &produce(round, producer, i)).unwrap();
                keys.insert(key);
                total += millis;
            }
        }
        checksum ^= keys.len() ^ total;
    }
    assert_eq!(log_pipeline::run(), checksum);
}

#[test]
fn numbered_text_has_its_number() {
    assert_eq!(numbered("pool-", 120), "pool-120");
}
