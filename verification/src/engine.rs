//! The zone/alias matching engine: for every DNS answer record it decides
//! whether to log the owner as a corporate host and whether to install a host
//! route for a resolved address, and it learns CNAME targets of corporate
//! owners as aliases so that later answers naming them also qualify.

use vstd::prelude::*;

use crate::name::{host_chars, is_label_suffix, DomainName};

verus! {

/// The typed data of one DNS answer record.
pub enum RecordData {
    /// An IPv4 address, from an A record.
    A([u8; 4]),
    /// A target name, from a CNAME record.
    Cname(DomainName),
    /// Any other record type and data: processed as a no-op.
    Other,
}

/// One decoded answer record: its owner name and its data.
pub struct Answer {
    pub owner: DomainName,
    pub data: RecordData,
}

/// A decision to install a host route for `dest` toward `gateway`.
pub struct RouteIntent {
    pub dest: [u8; 4],
    pub gateway: [u8; 4],
}

/// What one answer record gives rise to: at most one log upsert for the
/// owner's canonical host string, and at most one route installation.
pub struct AnswerOutcome {
    pub log_host: Option<String>,
    pub route: Option<RouteIntent>,
}

/// Whether some configured zone is an ancestor-or-equal zone of `n`.
pub open spec fn corp_match(zones: Seq<Seq<Seq<u8>>>, n: Seq<Seq<u8>>) -> bool {
    exists|i: int| 0 <= i < zones.len() && is_label_suffix(#[trigger] zones[i], n)
}

/// The alias set after one answer is examined: the CNAME target of an owner
/// that matches a configured zone is added; nothing else changes the set.
pub open spec fn aliases_step(
    zones: Seq<Seq<Seq<u8>>>,
    al: Set<Seq<Seq<u8>>>,
    owner: Seq<Seq<u8>>,
    data: RecordData,
) -> Set<Seq<Seq<u8>>> {
    match data {
        RecordData::Cname(t) => if corp_match(zones, owner) {
            al.insert(t@)
        } else {
            al
        },
        _ => al,
    }
}

/// The alias set after the first `k` answers of a response, starting from `al`.
pub open spec fn aliases_after(
    zones: Seq<Seq<Seq<u8>>>,
    al: Set<Seq<Seq<u8>>>,
    answers: Seq<Answer>,
    k: int,
) -> Set<Seq<Seq<u8>>>
    decreases k,
{
    if k <= 0 {
        al
    } else {
        aliases_step(
            zones,
            aliases_after(zones, al, answers, k - 1),
            answers[k - 1].owner@,
            answers[k - 1].data,
        )
    }
}

/// What examining one answer must produce, given the alias set `al` in force
/// when the answer is examined: a log intent exactly for zone-matching
/// owners, and a route intent exactly for A records whose owner matches a
/// zone or is a known alias.
pub open spec fn outcome_ok(
    zones: Seq<Seq<Seq<u8>>>,
    gw: [u8; 4],
    al: Set<Seq<Seq<u8>>>,
    owner: Seq<Seq<u8>>,
    data: RecordData,
    out: AnswerOutcome,
) -> bool {
    let corp = corp_match(zones, owner);
    let alias = al.contains(owner);
    &&& (out.log_host is Some) == corp
    &&& (out.log_host matches Some(hs) ==> hs@ == host_chars(owner))
    &&& match data {
        RecordData::A(addr) => {
            &&& (out.route is Some) == (corp || alias)
            &&& (out.route matches Some(ri) ==> ri.dest == addr && ri.gateway == gw)
        },
        _ => out.route is None,
    }
}

/// The matching engine: the configured zones and gateway, read-only, and the
/// alias set learned during the run.
pub struct MatchEngine {
    target: [u8; 4],
    zones: Vec<DomainName>,
    aliases: Vec<DomainName>,
}

impl MatchEngine {
    /// The configured zones' label sequences, in configuration order.
    pub closed spec fn zones_view(&self) -> Seq<Seq<Seq<u8>>> {
        Seq::new(self.zones@.len(), |i: int| self.zones@[i]@)
    }

    /// The set of alias names learned from corporate CNAME answers.
    pub closed spec fn alias_view(&self) -> Set<Seq<Seq<u8>>> {
        Set::new(
            |n: Seq<Seq<u8>>|
                exists|i: int| 0 <= i < self.aliases@.len() && (#[trigger] self.aliases@[i])@ == n,
        )
    }

    /// The configured gateway address.
    pub closed spec fn gateway(&self) -> [u8; 4] {
        self.target
    }

    /// A fresh engine: the given gateway and zones, no aliases.
    pub fn new(target: [u8; 4], zones: Vec<DomainName>) -> (r: MatchEngine)
        ensures
            r.gateway() == target,
            r.zones_view().len() == zones@.len(),
            forall|i: int| 0 <= i < zones@.len() ==> r.zones_view()[i] == (#[trigger] zones@[i])@,
            r.alias_view() == Set::<Seq<Seq<u8>>>::empty(),
    {
        let r = MatchEngine { target, zones, aliases: Vec::new() };
        proof {
            assert(r.alias_view() =~= Set::<Seq<Seq<u8>>>::empty());
        }
        r
    }

    /// Whether some configured zone is a zone of `n`.
    fn is_corp(&self, n: &DomainName) -> (r: bool)
        ensures
            r == corp_match(self.zones_view(), n@),
    {
        let mut i: usize = 0;
        while i < self.zones.len()
            invariant
                0 <= i <= self.zones@.len(),
                forall|j: int|
                    0 <= j < i ==> !is_label_suffix(#[trigger] self.zones_view()[j], n@),
            decreases self.zones@.len() - i,
        {
            if self.zones[i].is_zone_of(n) {
                proof {
                    assert(is_label_suffix(self.zones_view()[i as int], n@));
                }
                return true;
            }
            proof {
                assert(self.zones_view()[i as int] == self.zones@[i as int]@);
            }
            i = i + 1;
        }
        false
    }

    /// Whether `n` is a known alias.
    fn is_alias(&self, n: &DomainName) -> (r: bool)
        ensures
            r == self.alias_view().contains(n@),
    {
        let mut i: usize = 0;
        while i < self.aliases.len()
            invariant
                0 <= i <= self.aliases@.len(),
                forall|j: int| 0 <= j < i ==> (#[trigger] self.aliases@[j])@ != n@,
            decreases self.aliases@.len() - i,
        {
            if self.aliases[i].same_name(n) {
                proof {
                    assert(self.aliases@[i as int]@ == n@);
                }
                return true;
            }
            i = i + 1;
        }
        false
    }

    /// Examines one answer record against the current state, as the record of
    /// a response-type DNS message: a zone-matching owner is logged; an A
    /// record whose owner matches a zone or is a known alias gets a route
    /// intent toward the gateway; the CNAME target of a zone-matching owner
    /// becomes an alias. Matching uses the alias set as it stood before this
    /// answer.
    pub fn process_answer(&mut self, owner: &DomainName, data: &RecordData) -> (r: AnswerOutcome)
        ensures
            final(self).zones_view() == old(self).zones_view(),
            final(self).gateway() == old(self).gateway(),
            final(self).alias_view() == aliases_step(
                old(self).zones_view(),
                old(self).alias_view(),
                owner@,
                *data,
            ),
            outcome_ok(
                old(self).zones_view(),
                old(self).gateway(),
                old(self).alias_view(),
                owner@,
                *data,
                r,
            ),
    {
        let corp = self.is_corp(owner);
        let alias = self.is_alias(owner);
        let log_host: Option<String> = if corp {
            Some(owner.to_host_string())
        } else {
            None
        };
        let route: Option<RouteIntent> = match data {
            RecordData::A(addr) => {
                if corp || alias {
                    Some(RouteIntent { dest: *addr, gateway: self.target })
                } else {
                    None
                }
            },
            _ => None,
        };
        if corp {
            match data {
                RecordData::Cname(t) => {
                    let known = self.is_alias(t);
                    if !known {
                        let dup = t.duplicate();
                        self.aliases.push(dup);
                        proof {
                            let oldal = old(self).alias_view();
                            let tv = t@;
                            assert forall|n: Seq<Seq<u8>>|
                                self.alias_view().contains(n) implies oldal.insert(tv).contains(
                                n,
                            ) by {
                                let i = choose|i: int|
                                    0 <= i < self.aliases@.len() && (#[trigger] self.aliases@[i])@
                                        == n;
                                if i < old(self).aliases@.len() {
                                    assert(old(self).aliases@[i]@ == n);
                                } else {
                                    assert(n == tv);
                                }
                            }
                            assert forall|n: Seq<Seq<u8>>|
                                oldal.insert(tv).contains(n) implies self.alias_view().contains(
                                n,
                            ) by {
                                if n == tv {
                                    assert(self.aliases@[self.aliases@.len() - 1]@ == n);
                                } else {
                                    assert(oldal.contains(n));
                                    let i = choose|i: int|
                                        0 <= i < old(self).aliases@.len() && (
                                        #[trigger] old(self).aliases@[i])@ == n;
                                    assert(self.aliases@[i]@ == n);
                                }
                            }
                            assert(self.alias_view() =~= oldal.insert(tv));
                        }
                    } else {
                        proof {
                            assert(self.alias_view() =~= old(self).alias_view().insert(t@));
                        }
                    }
                },
                _ => {},
            }
        }
        AnswerOutcome { log_host, route }
    }

    /// Processes the answer records of one response, in arrival order. The
    /// outcome of answer `k` is judged against the alias set as it stood
    /// after the first `k` answers, so a CNAME target learned at position `k`
    /// influences later answers but never earlier ones.
    pub fn process_response(&mut self, answers: &Vec<Answer>) -> (r: Vec<AnswerOutcome>)
        ensures
            final(self).zones_view() == old(self).zones_view(),
            final(self).gateway() == old(self).gateway(),
            final(self).alias_view() == aliases_after(
                old(self).zones_view(),
                old(self).alias_view(),
                answers@,
                answers@.len() as int,
            ),
            r@.len() == answers@.len(),
            forall|k: int|
                0 <= k < answers@.len() ==> outcome_ok(
                    old(self).zones_view(),
                    old(self).gateway(),
                    aliases_after(old(self).zones_view(), old(self).alias_view(), answers@, k),
                    answers@[k].owner@,
                    answers@[k].data,
                    #[trigger] r@[k],
                ),
    {
        let mut out: Vec<AnswerOutcome> = Vec::new();
        let mut i: usize = 0;
        while i < answers.len()
            invariant
                0 <= i <= answers@.len(),
                self.zones_view() == old(self).zones_view(),
                self.gateway() == old(self).gateway(),
                self.alias_view() == aliases_after(
                    old(self).zones_view(),
                    old(self).alias_view(),
                    answers@,
                    i as int,
                ),
                out@.len() == i,
                forall|k: int|
                    0 <= k < i ==> outcome_ok(
                        old(self).zones_view(),
                        old(self).gateway(),
                        aliases_after(
                            old(self).zones_view(),
                            old(self).alias_view(),
                            answers@,
                            k,
                        ),
                        answers@[k].owner@,
                        answers@[k].data,
                        #[trigger] out@[k],
                    ),
            decreases answers@.len() - i,
        {
            let a = &answers[i];
            let o = self.process_answer(&a.owner, &a.data);
            out.push(o);
            i = i + 1;
        }
        out
    }
}

/// An A-record answer whose owner matches a configured zone yields exactly
/// one route intent, carrying that address and the gateway, and exactly one
/// log intent, carrying the owner's canonical host string.
pub proof fn lemma_corp_a_yields_route_and_log(
    zones: Seq<Seq<Seq<u8>>>,
    gw: [u8; 4],
    al: Set<Seq<Seq<u8>>>,
    owner: Seq<Seq<u8>>,
    addr: [u8; 4],
    out: AnswerOutcome,
)
    requires
        corp_match(zones, owner),
        outcome_ok(zones, gw, al, owner, RecordData::A(addr), out),
    ensures
        out.route is Some,
        out.route->0.dest == addr,
        out.route->0.gateway == gw,
        out.log_host is Some,
        out.log_host->0@ == host_chars(owner),
{
}

/// Aliases only grow while answers are processed.
pub proof fn lemma_aliases_monotone(
    zones: Seq<Seq<Seq<u8>>>,
    al: Set<Seq<Seq<u8>>>,
    answers: Seq<Answer>,
    k: int,
)
    requires
        0 <= k,
    ensures
        al.subset_of(aliases_after(zones, al, answers, k)),
    decreases k,
{
    if k > 0 {
        lemma_aliases_monotone(zones, al, answers, k - 1);
    }
}

/// A CNAME answer for a zone-matching owner makes its target an alias; the
/// alias survives all later answers; and an A-record answer owned by that
/// target, examined any number of answers later, yields a route intent even
/// though the target itself need match no configured zone.
pub proof fn lemma_cname_then_later_a(
    zones: Seq<Seq<Seq<u8>>>,
    gw: [u8; 4],
    al0: Set<Seq<Seq<u8>>>,
    owner1: Seq<Seq<u8>>,
    cname: DomainName,
    later: Seq<Answer>,
    k: int,
    addr: [u8; 4],
    out: AnswerOutcome,
)
    requires
        corp_match(zones, owner1),
        0 <= k,
        outcome_ok(
            zones,
            gw,
            aliases_after(
                zones,
                aliases_step(zones, al0, owner1, RecordData::Cname(cname)),
                later,
                k,
            ),
            cname@,
            RecordData::A(addr),
            out,
        ),
    ensures
        out.route is Some,
        out.route->0.dest == addr,
        out.route->0.gateway == gw,
{
    let al1 = aliases_step(zones, al0, owner1, RecordData::Cname(cname));
    assert(al1.contains(cname@));
    lemma_aliases_monotone(zones, al1, later, k);
    assert(aliases_after(zones, al1, later, k).contains(cname@));
}

/// The alias set in force for answer `k` is determined by the answers before
/// it alone: truncating a response after position `k` leaves it unchanged, so
/// a CNAME target learned at position `k` never retroactively qualifies an
/// earlier answer of the same response.
pub proof fn lemma_no_retroactive_alias(
    zones: Seq<Seq<Seq<u8>>>,
    al: Set<Seq<Seq<u8>>>,
    answers: Seq<Answer>,
    k: int,
)
    requires
        0 <= k <= answers.len(),
    ensures
        aliases_after(zones, al, answers, k) == aliases_after(zones, al, answers.take(k), k),
    decreases k,
{
    if k > 0 {
        lemma_no_retroactive_alias(zones, al, answers, k - 1);
        lemma_no_retroactive_alias(zones, al, answers.take(k), k - 1);
        assert(answers.take(k).take(k - 1) =~= answers.take(k - 1));
        assert(answers.take(k)[k - 1] == answers[k - 1]);
    }
}

} // verus!
