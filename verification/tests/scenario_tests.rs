//! The end-to-end flow: decoded responses through the matching engine, log
//! intents into the query-log store, route intents collected as the route
//! effector would receive them.

use dns_auto_routes::engine::{Answer, MatchEngine, RecordData, RouteIntent};
use dns_auto_routes::name::DomainName;
use dns_auto_routes::store::{DnsLogStore, MemDnsLogStore};

fn name(s: &str) -> DomainName {
    DomainName::parse(s).expect("name should parse")
}

#[test]
fn cname_then_a_installs_route_and_logs_host() {
    let mut engine = MatchEngine::new([10, 0, 0, 1], vec![name("corp.example.com")]);
    let mut store = MemDnsLogStore::new();
    let now: u64 = 1_700_000_000;
    let responses = vec![
        vec![Answer {
            owner: name("corp.example.com"),
            data: RecordData::Cname(name("edge.cdn.net")),
        }],
        vec![Answer {
            owner: name("edge.cdn.net"),
            data: RecordData::A([93, 184, 216, 34]),
        }],
    ];

    let mut installed: Vec<RouteIntent> = Vec::new();
    for answers in &responses {
        for out in engine.process_response(answers) {
            if let Some(host) = out.log_host {
                store.on_query(&host, now).unwrap();
            }
            if let Some(ri) = out.route {
                installed.push(ri);
            }
        }
    }

    assert_eq!(installed.len(), 1);
    assert!(installed[0].dest == [93, 184, 216, 34]);
    assert!(installed[0].gateway == [10, 0, 0, 1]);

    let rows = store.load_entries(now).unwrap();
    assert_eq!(rows.len(), 1);
    assert_eq!(rows[0].host, "corp.example.com");
    assert_eq!(rows[0].timestamp, now);
}
