use dns_auto_routes::engine::{Answer, AnswerOutcome, MatchEngine, RecordData};
use dns_auto_routes::name::DomainName;

fn name(s: &str) -> DomainName {
    DomainName::parse(s).expect("name should parse")
}

fn corp_engine() -> MatchEngine {
    let zones = vec![name("corp.example.com")];
    MatchEngine::new([10, 0, 0, 1], zones)
}

fn route_count(outs: &[AnswerOutcome]) -> usize {
    outs.iter().filter(|o| o.route.is_some()).count()
}

#[test]
fn corp_a_record_yields_one_route_and_one_log() {
    let mut e = corp_engine();
    let out = e.process_answer(&name("vpn.corp.example.com"), &RecordData::A([192, 0, 2, 7]));
    let ri = out.route.expect("route intent expected");
    assert!(ri.dest == [192, 0, 2, 7]);
    assert!(ri.gateway == [10, 0, 0, 1]);
    assert_eq!(out.log_host.as_deref(), Some("vpn.corp.example.com"));
}

#[test]
fn non_corp_a_record_yields_nothing() {
    let mut e = corp_engine();
    let out = e.process_answer(&name("www.other.net"), &RecordData::A([192, 0, 2, 7]));
    assert!(out.route.is_none());
    assert!(out.log_host.is_none());
}

#[test]
fn corp_other_record_logs_but_routes_nothing() {
    let mut e = corp_engine();
    let out = e.process_answer(&name("vpn.corp.example.com"), &RecordData::Other);
    assert!(out.route.is_none());
    assert_eq!(out.log_host.as_deref(), Some("vpn.corp.example.com"));
}

#[test]
fn cname_alias_qualifies_later_response() {
    let mut e = corp_engine();
    let r1 = e.process_response(&vec![Answer {
        owner: name("corp.example.com"),
        data: RecordData::Cname(name("alias.other.net")),
    }]);
    assert_eq!(r1.len(), 1);
    assert!(r1[0].route.is_none());
    assert_eq!(r1[0].log_host.as_deref(), Some("corp.example.com"));

    let r2 = e.process_response(&vec![Answer {
        owner: name("alias.other.net"),
        data: RecordData::A([198, 51, 100, 9]),
    }]);
    assert_eq!(r2.len(), 1);
    let ri = r2[0].route.as_ref().expect("route via alias expected");
    assert!(ri.dest == [198, 51, 100, 9]);
    assert!(ri.gateway == [10, 0, 0, 1]);
    assert!(r2[0].log_host.is_none());
}

#[test]
fn cname_does_not_retroactively_qualify_earlier_answer() {
    let mut e = corp_engine();
    let outs = e.process_response(&vec![
        Answer { owner: name("edge.cdn.net"), data: RecordData::A([203, 0, 113, 5]) },
        Answer {
            owner: name("corp.example.com"),
            data: RecordData::Cname(name("edge.cdn.net")),
        },
    ]);
    assert_eq!(outs.len(), 2);
    assert!(outs[0].route.is_none(), "answer 1 must not see the alias from answer 2");
    assert!(outs[1].route.is_none());
    let later = e.process_answer(&name("edge.cdn.net"), &RecordData::A([203, 0, 113, 5]));
    assert!(later.route.is_some(), "a later answer does see the alias");
}

#[test]
fn cname_alias_applies_within_one_response_to_later_answers() {
    let mut e = corp_engine();
    let outs = e.process_response(&vec![
        Answer {
            owner: name("corp.example.com"),
            data: RecordData::Cname(name("edge.cdn.net")),
        },
        Answer { owner: name("edge.cdn.net"), data: RecordData::A([203, 0, 113, 5]) },
    ]);
    assert_eq!(outs.len(), 2);
    assert!(outs[0].route.is_none());
    assert!(outs[1].route.is_some(), "answer 2 sees the alias from answer 1");
}

#[test]
fn end_to_end_cname_then_a_installs_one_route() {
    let mut e = corp_engine();
    let r1 = e.process_response(&vec![Answer {
        owner: name("corp.example.com"),
        data: RecordData::Cname(name("edge.cdn.net")),
    }]);
    let r2 = e.process_response(&vec![Answer {
        owner: name("edge.cdn.net"),
        data: RecordData::A([93, 184, 216, 34]),
    }]);
    let mut all = r1;
    all.extend(r2);
    assert_eq!(route_count(&all), 1);
    let ri = all[1].route.as_ref().unwrap();
    assert!(ri.dest == [93, 184, 216, 34]);
    assert!(ri.gateway == [10, 0, 0, 1]);
    let logs: Vec<&str> = all.iter().filter_map(|o| o.log_host.as_deref()).collect();
    assert_eq!(logs, vec!["corp.example.com"]);
}

#[test]
fn matching_is_case_insensitive_end_to_end() {
    let mut e = corp_engine();
    let out = e.process_answer(&name("VPN.CORP.EXAMPLE.COM"), &RecordData::A([192, 0, 2, 1]));
    assert!(out.route.is_some());
    assert_eq!(out.log_host.as_deref(), Some("vpn.corp.example.com"));
}
