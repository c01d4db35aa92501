//! Proxies: which one is next, and how healthy each is.
//!
//! A health score runs from 0 to 100. Times are nanoseconds on one clock.

use crate::config::ProxyConfig;
use crate::symbol_maps;
use crate::text;
use crate::text::{contains, u64_text};
use dashmap::DashMap;
use rustc_hash::FxHashMap;
use vstd::prelude::*;

verus! {

/// The best health score.
pub const MAX_SCORE: u8 = 100;

/// A proxy with a higher score is picked in its turn.
pub const MIN_USABLE_SCORE: u8 = 10;

/// A proxy that was not used for longer than this recovers by itself.
pub const HEALING_IDLE_NANOS: u64 = 300_000_000_000;

/// A proxy.
pub struct ProxyEndpoint {
    pub name: String,
    pub url: String,
    pub region: String,
}

impl Clone for ProxyEndpoint {
    fn clone(&self) -> (r: ProxyEndpoint)
        ensures
            r == *self,
    {
        ProxyEndpoint {
            name: self.name.clone(),
            url: self.url.clone(),
            region: self.region.clone(),
        }
    }
}

/// What is known of a proxy.
#[derive(Clone, Copy, Debug, PartialEq, Eq, Structural)]
pub struct ProxyHealth {
    pub success_count: u64,
    pub failure_count: u64,
    pub last_success: Option<u64>,
    pub last_failure: Option<u64>,
    pub health_score: u8,
    pub last_used: u64,
}

/// What a map from proxy names to their health holds.
pub uninterp spec fn health_entries(map: DashMap<String, ProxyHealth>) -> Map<
    Seq<char>,
    ProxyHealth,
>;

/// `DashMap::new`: an empty map.
#[verifier::external_body]
fn health_map() -> (r: DashMap<String, ProxyHealth>)
    ensures
        health_entries(r) == (Map::<Seq<char>, ProxyHealth>::empty()),
{
    DashMap::new()
}

/// `DashMap::insert`: the key maps to the value, other keys are as before.
#[verifier::external_body]
fn health_insert(map: &mut DashMap<String, ProxyHealth>, key: &str, health: ProxyHealth)
    ensures
        health_entries(*final(map)) == health_entries(*old(map)).insert(key@, health),
{
    map.insert(key.to_string(), health);
}

/// `DashMap::get`: the value of the key, if there is one.
#[verifier::external_body]
fn health_get(map: &DashMap<String, ProxyHealth>, key: &str) -> (r: Option<ProxyHealth>)
    ensures
        r == (if health_entries(*map).contains_key(key@) {
            Some(health_entries(*map)[key@])
        } else {
            None
        }),
{
    map.get(key).map(|h| *h)
}

/// `DashMap::iter`, each entry copied out: every entry once, in no particular order.
#[verifier::external_body]
fn health_list(map: &DashMap<String, ProxyHealth>) -> (r: Vec<(String, ProxyHealth)>)
    ensures
        symbol_maps::lists_entries(health_entries(*map), r@),
{
    map.iter().map(|entry| (entry.key().clone(), *entry.value())).collect()
}

/// `endpoint` is the proxy of `region` at `port`.
pub open spec fn is_endpoint(
    config: ProxyConfig,
    region: Seq<char>,
    port: u16,
    endpoint: ProxyEndpoint,
) -> bool {
    &&& endpoint.name@ == region + seq!['-'] + text::decimal(port as nat)
    &&& endpoint.url@ == "http://"@ + config.user@ + seq![':'] + config.password@ + seq!['@']
        + config.host@ + seq![':'] + text::decimal(port as nat)
    &&& endpoint.region@ == region
}

fn endpoint(config: &ProxyConfig, region: &str, port: u16) -> (r: ProxyEndpoint)
    ensures
        is_endpoint(*config, region@, port, r),
{
    let digits: String = u64_text(port as u64);
    let mut name: String = region.to_owned();
    name.push('-');
    name.append(digits.as_str());
    let mut url: String = "http://".to_owned();
    url.append(config.user.as_str());
    url.push(':');
    url.append(config.password.as_str());
    url.push('@');
    url.append(config.host.as_str());
    url.push(':');
    url.append(digits.as_str());
    assert(name@ =~= region@ + seq!['-'] + text::decimal(port as nat));
    assert(url@ =~= "http://"@ + config.user@ + seq![':'] + config.password@ + seq!['@']
        + config.host@ + seq![':'] + text::decimal(port as nat));
    ProxyEndpoint { name, url, region: region.to_owned() }
}

/// Adds the proxies of one region.
fn add_region(proxies: &mut Vec<ProxyEndpoint>, config: &ProxyConfig, region: &str, ports: &Vec<u16>)
    ensures
        final(proxies)@.len() == old(proxies)@.len() + ports@.len(),
        forall|i: int|
            0 <= i < old(proxies)@.len() ==> #[trigger] final(proxies)@[i] == old(proxies)@[i],
        forall|i: int|
            0 <= i < ports@.len() ==> is_endpoint(
                *config,
                region@,
                #[trigger] ports@[i],
                final(proxies)@[old(proxies)@.len() + i],
            ),
{
    let mut i: usize = 0;
    while i < ports.len()
        invariant
            i <= ports.len(),
            proxies@.len() == old(proxies)@.len() + i,
            forall|k: int|
                0 <= k < old(proxies)@.len() ==> #[trigger] proxies@[k] == old(proxies)@[k],
            forall|k: int|
                0 <= k < i ==> is_endpoint(
                    *config,
                    region@,
                    #[trigger] ports@[k],
                    proxies@[old(proxies)@.len() + k],
                ),
        decreases ports.len() - i,
    {
        proxies.push(endpoint(config, region, ports[i]));
        i = i + 1;
    }
}

/// Region and port of the proxies that the settings name, in the order in which they
/// are used.
pub open spec fn configured(config: ProxyConfig) -> Seq<(Seq<char>, u16)> {
    config.au_ports@.map_values(|p: u16| ("AU"@, p)) + config.jp_ports@.map_values(
        |p: u16| ("JP"@, p),
    ) + config.dk_ports@.map_values(|p: u16| ("DK"@, p)) + config.uk_ports@.map_values(
        |p: u16| ("UK"@, p),
    )
}

/// A proxy as it is before its first use.
pub open spec fn fresh_health(now: u64) -> ProxyHealth {
    ProxyHealth {
        success_count: 0,
        failure_count: 0,
        last_success: None,
        last_failure: None,
        health_score: MAX_SCORE,
        last_used: now,
    }
}

/// A proxy after it was handed out.
pub open spec fn used_health(health: ProxyHealth, now: u64) -> ProxyHealth {
    ProxyHealth { last_used: now, ..health }
}

/// A proxy after a request that went through: five points better, 100 at most.
pub open spec fn success_health(health: ProxyHealth, now: u64) -> ProxyHealth {
    ProxyHealth {
        success_count: (if health.success_count == u64::MAX {
            0
        } else {
            health.success_count + 1
        }) as u64,
        last_success: Some(now),
        last_used: now,
        health_score: (if health.health_score + 5 > MAX_SCORE {
            MAX_SCORE as int
        } else {
            health.health_score + 5
        }) as u8,
        ..health
    }
}

/// What a failure costs: 20 points when the connection failed, 10 on a timeout, else 5.
pub open spec fn penalty(reason: Seq<char>) -> int {
    if text::contains_text(reason, "unsuccessful tunnel"@) || text::contains_text(
        reason,
        "connection refused"@,
    ) {
        20
    } else if text::contains_text(reason, "timeout"@) {
        10
    } else {
        5
    }
}

/// A proxy after a request that failed.
pub open spec fn failure_health(health: ProxyHealth, reason: Seq<char>, now: u64) -> ProxyHealth {
    ProxyHealth {
        failure_count: (if health.failure_count == u64::MAX {
            0
        } else {
            health.failure_count + 1
        }) as u64,
        last_failure: Some(now),
        last_used: now,
        health_score: (if health.health_score > penalty(reason) {
            health.health_score - penalty(reason)
        } else {
            0
        }) as u8,
        ..health
    }
}

/// A proxy heals at `now`: it is not at its best and was not used for long enough.
pub open spec fn heals(health: ProxyHealth, now: u64) -> bool {
    health.health_score < MAX_SCORE && health.last_used < now && now - health.last_used
        > HEALING_IDLE_NANOS
}

/// A proxy after a round of healing: two points better, 100 at most, when it heals.
pub open spec fn healed_health(health: ProxyHealth, now: u64) -> ProxyHealth {
    if heals(health, now) {
        ProxyHealth {
            health_score: (if health.health_score + 2 > MAX_SCORE {
                MAX_SCORE as int
            } else {
                health.health_score + 2
            }) as u8,
            ..health
        }
    } else {
        health
    }
}

/// How many proxies are in which shape.
#[derive(Clone, Copy, Debug, PartialEq, Eq, Structural)]
pub struct HealthSummary {
    pub healthy: usize,
    pub degraded: usize,
    pub unhealthy: usize,
}

/// Statistics of one proxy.
pub struct ProxyStats {
    pub name: String,
    pub region: String,
    pub success_count: u64,
    pub failure_count: u64,
    pub health_score: u8,
    pub last_success: Option<u64>,
    pub last_failure: Option<u64>,
}

/// `stats` is what there is to say of a proxy.
pub open spec fn describes(proxy: ProxyEndpoint, health: ProxyHealth, stats: ProxyStats) -> bool {
    &&& stats.name@ == proxy.name@
    &&& stats.region@ == proxy.region@
    &&& stats.success_count == health.success_count
    &&& stats.failure_count == health.failure_count
    &&& stats.health_score == health.health_score
    &&& stats.last_success == health.last_success
    &&& stats.last_failure == health.last_failure
}

/// The names of proxies.
pub open spec fn names_of(proxies: Seq<ProxyEndpoint>) -> Set<Seq<char>> {
    Set::new(
        |name: Seq<char>|
            exists|i: int| 0 <= i < proxies.len() && (#[trigger] proxies[i]).name@ == name,
    )
}

/// No later proxy has the name of the `i`th.
pub open spec fn is_last_of_name(proxies: Seq<ProxyEndpoint>, i: int) -> bool {
    forall|j: int| i < j < proxies.len() ==> (#[trigger] proxies[j]).name@ != proxies[i].name@
}

/// `stats` are what there is to say of `proxies`, by name. Of proxies with one name the
/// last counts.
pub open spec fn describe_all(
    proxies: Seq<ProxyEndpoint>,
    health: Map<Seq<char>, ProxyHealth>,
    stats: Map<Seq<char>, ProxyStats>,
) -> bool {
    &&& stats.dom() == names_of(proxies)
    &&& forall|i: int|
        0 <= i < proxies.len() && is_last_of_name(proxies, i) ==> describes(
            #[trigger] proxies[i],
            health[proxies[i].name@],
            stats[proxies[i].name@],
        )
}

/// The names of one more proxy.
proof fn lemma_one_more_name(proxies: Seq<ProxyEndpoint>, n: int)
    requires
        0 <= n < proxies.len(),
    ensures
        names_of(proxies.take(n + 1)) == names_of(proxies.take(n)).insert(proxies[n].name@),
{
    let seen = proxies.take(n);
    let more = proxies.take(n + 1);
    let name = proxies[n].name@;
    assert forall|other: Seq<char>| names_of(more).contains(other) == names_of(seen).insert(
        name,
    ).contains(other) by {
        if names_of(seen).contains(other) {
            let k = choose|k: int| 0 <= k < seen.len() && (#[trigger] seen[k]).name@ == other;
            assert(more[k].name@ == other);
        }
        assert(more[n].name@ == name);
        if names_of(more).contains(other) && other != name {
            let k = choose|k: int| 0 <= k < more.len() && (#[trigger] more[k]).name@ == other;
            assert(seen[k].name@ == other);
        }
    }
    assert(names_of(more) =~= names_of(seen).insert(name));
}

/// Statistics of one more proxy.
proof fn lemma_describe_one_more(
    proxies: Seq<ProxyEndpoint>,
    n: int,
    health: Map<Seq<char>, ProxyHealth>,
    stats: Map<Seq<char>, ProxyStats>,
    one: ProxyStats,
)
    requires
        0 <= n < proxies.len(),
        describe_all(proxies.take(n), health, stats),
        describes(proxies[n], health[proxies[n].name@], one),
    ensures
        describe_all(proxies.take(n + 1), health, stats.insert(proxies[n].name@, one)),
{
    let seen = proxies.take(n);
    let more = proxies.take(n + 1);
    let after = stats.insert(proxies[n].name@, one);
    assert(after.dom() == names_of(more)) by {
        lemma_one_more_name(proxies, n);
        assert(after.dom() =~= stats.dom().insert(proxies[n].name@));
    }
    assert forall|k: int| 0 <= k < more.len() && is_last_of_name(more, k) implies describes(
        #[trigger] more[k],
        health[more[k].name@],
        after[more[k].name@],
    ) by {
        if k < n {
            assert(more[n].name@ != more[k].name@);
            assert(is_last_of_name(seen, k)) by {
                assert forall|j: int| k < j < seen.len() implies (#[trigger] seen[j]).name@
                    != seen[k].name@ by {
                    assert(more[j].name@ != more[k].name@);
                }
            }
            assert(seen[k] == more[k]);
        }
    }
}

/// What a map from names to statistics holds.
pub uninterp spec fn stats_entries(map: FxHashMap<String, ProxyStats>) -> Map<
    Seq<char>,
    ProxyStats,
>;

/// `FxHashMap::default`: an empty map.
#[verifier::external_body]
fn stats_map() -> (r: FxHashMap<String, ProxyStats>)
    ensures
        stats_entries(r) == (Map::<Seq<char>, ProxyStats>::empty()),
{
    FxHashMap::default()
}

/// `FxHashMap::insert`: the key maps to the statistics, other keys are as before.
#[verifier::external_body]
fn stats_insert(map: &mut FxHashMap<String, ProxyStats>, key: &str, stats: ProxyStats)
    ensures
        stats_entries(*final(map)) == stats_entries(*old(map)).insert(key@, stats),
{
    map.insert(key.to_string(), stats);
}

/// The proxies and their health as mathematical values.
pub struct ProxyView {
    pub enabled: bool,
    pub proxies: Seq<ProxyEndpoint>,
    /// Counts how many proxies were looked at; it wraps around.
    pub cursor: usize,
    pub health: Map<Seq<char>, ProxyHealth>,
}

impl ProxyView {
    /// The health of every proxy is known, and no score is above 100.
    pub open spec fn valid(self) -> bool {
        &&& forall|i: int|
            0 <= i < self.proxies.len() ==> self.health.contains_key(
                (#[trigger] self.proxies[i]).name@,
            )
        &&& forall|name: Seq<char>| #[trigger]
            self.health.contains_key(name) ==> self.health[name].health_score <= MAX_SCORE
    }

    /// The proxies after a request through `name` was answered.
    pub open spec fn after_success(self, name: Seq<char>, now: u64) -> ProxyView {
        if self.health.contains_key(name) {
            ProxyView {
                health: self.health.insert(name, success_health(self.health[name], now)),
                ..self
            }
        } else {
            self
        }
    }

    /// The proxies after a request through `name` failed.
    pub open spec fn after_failure(self, name: Seq<char>, reason: Seq<char>, now: u64) -> ProxyView {
        if self.health.contains_key(name) {
            ProxyView {
                health: self.health.insert(name, failure_health(self.health[name], reason, now)),
                ..self
            }
        } else {
            self
        }
    }

    /// The cursor after `n` more looks.
    pub open spec fn cursor_after(self, n: int) -> int {
        (self.cursor + n) % (usize::MAX + 1)
    }

    /// The proxy that the look `n` from now goes to.
    pub open spec fn slot(self, n: int) -> int {
        self.cursor_after(n) % self.proxies.len() as int
    }

    /// The proxy at `slot` is healthy enough to be picked.
    pub open spec fn usable(self, slot: int) -> bool {
        self.health[self.proxies[slot].name@].health_score > MIN_USABLE_SCORE
    }

    /// How many looks pass before one goes to a usable proxy: at most twice round, then
    /// the next is taken as it is.
    pub open spec fn skipped(self, from: int) -> int
        decreases 2 * self.proxies.len() - from,
    {
        if from >= 2 * self.proxies.len() || self.usable(self.slot(from)) {
            from
        } else {
            self.skipped(from + 1)
        }
    }
}

impl ProxyView {
    /// The proxy that is handed out next.
    pub open spec fn picked(self) -> ProxyEndpoint {
        self.proxies[self.slot(self.skipped(0))]
    }

    /// The proxies after one was handed out.
    pub open spec fn after_pick(self, now: u64) -> ProxyView {
        let name = self.picked().name@;
        ProxyView {
            cursor: self.cursor_after(self.skipped(0) + 1) as usize,
            health: self.health.insert(name, used_health(self.health[name], now)),
            ..self
        }
    }
}

/// Hands out proxies in turn and keeps count of their health.
pub struct ProxyManager {
    enabled: bool,
    proxies: Vec<ProxyEndpoint>,
    current_index: usize,
    health_stats: DashMap<String, ProxyHealth>,
}

impl View for ProxyManager {
    type V = ProxyView;

    closed spec fn view(&self) -> ProxyView {
        ProxyView {
            enabled: self.enabled,
            proxies: self.proxies@,
            cursor: self.current_index,
            health: health_entries(self.health_stats),
        }
    }
}

impl ProxyManager {
    /// The proxies that the settings name, all at full health; none when proxies are
    /// not enabled.
    pub fn new(config: &ProxyConfig, now: u64) -> (r: ProxyManager)
        ensures
            r@.valid(),
            r@.enabled == config.enabled,
            r@.cursor == 0,
            !config.enabled ==> r@.proxies.len() == 0,
            config.enabled ==> r@.proxies.len() == configured(*config).len(),
            forall|i: int|
                0 <= i < r@.proxies.len() ==> is_endpoint(
                    *config,
                    configured(*config)[i].0,
                    configured(*config)[i].1,
                    #[trigger] r@.proxies[i],
                ),
            forall|name: Seq<char>| #[trigger]
                r@.health.contains_key(name) ==> r@.health[name] == fresh_health(now),
            forall|name: Seq<char>| #[trigger]
                r@.health.contains_key(name) ==> exists|i: int|
                    0 <= i < r@.proxies.len() && (#[trigger] r@.proxies[i]).name@ == name,
    {
        let mut proxies: Vec<ProxyEndpoint> = Vec::new();
        if config.enabled {
            add_region(&mut proxies, config, "AU", &config.au_ports);
            add_region(&mut proxies, config, "JP", &config.jp_ports);
            add_region(&mut proxies, config, "DK", &config.dk_ports);
            add_region(&mut proxies, config, "UK", &config.uk_ports);
            proof {
                let a = config.au_ports@;
                let b = config.jp_ports@;
                let c = config.dk_ports@;
                let d = config.uk_ports@;
                let all = configured(*config);
                assert forall|i: int| 0 <= i < proxies@.len() implies is_endpoint(
                    *config,
                    all[i].0,
                    all[i].1,
                    #[trigger] proxies@[i],
                ) by {
                    if i < a.len() {
                        assert(all[i] == ("AU"@, a[i]));
                    } else if i < a.len() + b.len() {
                        assert(all[i] == ("JP"@, b[i - a.len()]));
                    } else if i < a.len() + b.len() + c.len() {
                        assert(all[i] == ("DK"@, c[i - a.len() - b.len()]));
                    } else {
                        assert(all[i] == ("UK"@, d[i - a.len() - b.len() - c.len()]));
                    }
                }
            }
        }
        let mut health_stats: DashMap<String, ProxyHealth> = health_map();
        let mut i: usize = 0;
        while i < proxies.len()
            invariant
                i <= proxies.len(),
                forall|k: int|
                    0 <= k < i ==> health_entries(health_stats).contains_key(
                        (#[trigger] proxies@[k]).name@,
                    ),
                forall|name: Seq<char>| #[trigger]
                    health_entries(health_stats).contains_key(name) ==> health_entries(
                        health_stats,
                    )[name] == fresh_health(now) && exists|k: int|
                        0 <= k < proxies@.len() && (#[trigger] proxies@[k]).name@ == name,
            decreases proxies.len() - i,
        {
            health_insert(
                &mut health_stats,
                proxies[i].name.as_str(),
                ProxyHealth {
                    success_count: 0,
                    failure_count: 0,
                    last_success: None,
                    last_failure: None,
                    health_score: MAX_SCORE,
                    last_used: now,
                },
            );
            i = i + 1;
        }
        ProxyManager { enabled: config.enabled, proxies, current_index: 0, health_stats }
    }

    /// The next proxy in turn that is healthy enough; when none is, the next one all the
    /// same. `None` without proxies.
    pub fn get_next_proxy(&mut self, now: u64) -> (r: Option<ProxyEndpoint>)
        requires
            old(self)@.valid(),
        ensures
            final(self)@.valid(),
            old(self)@.proxies.len() == 0 ==> r is None && final(self)@ == old(self)@,
            old(self)@.proxies.len() > 0 ==> r == Some(old(self)@.picked()) && final(self)@ == old(
                self,
            )@.after_pick(now),
    {
        let count: usize = self.proxies.len();
        if count == 0 {
            return None;
        }
        let ghost before = self@;
        let ghost mut looks: int = 0;
        let mut round: u8 = 0;
        proof {
            vstd::arithmetic::div_mod::lemma_small_mod(
                before.cursor as nat,
                (usize::MAX + 1) as nat,
            );
        }
        while round < 2
            invariant
                round <= 2,
                count == self.proxies.len(),
                count > 0,
                before.valid(),
                before == old(self)@,
                before.proxies == self.proxies@,
                before.health == health_entries(self.health_stats),
                before.enabled == self.enabled,
                looks == round * count,
                before.skipped(0) == before.skipped(looks),
                self.current_index == before.cursor_after(looks),
            decreases 2 - round,
        {
            let mut step: usize = 0;
            while step < count
                invariant
                    round < 2,
                    step <= count,
                    count == self.proxies.len(),
                    count > 0,
                    before.valid(),
                    before == old(self)@,
                    before.proxies == self.proxies@,
                    before.health == health_entries(self.health_stats),
                    before.enabled == self.enabled,
                    looks == round * count + step,
                    before.skipped(0) == before.skipped(looks),
                    self.current_index == before.cursor_after(looks),
                decreases count - step,
            {
                let index: usize = self.current_index % count;
                proof {
                    lemma_cursor_step(before.cursor as int, looks);
                    assert(looks < 2 * count) by (nonlinear_arith)
                        requires
                            looks == round * count + step,
                            round < 2,
                            step < count,
                    ;
                }
                self.current_index = self.current_index.wrapping_add(1);
                let health: Option<ProxyHealth> = health_get(
                    &self.health_stats,
                    self.proxies[index].name.as_str(),
                );
                assert(before.slot(looks) == index);
                match health {
                    Some(known) => {
                        if known.health_score > MIN_USABLE_SCORE {
                            return Some(self.hand_out(index, known, now));
                        }
                    },
                    None => {
                        assert(false);
                    },
                }
                step = step + 1;
                proof {
                    looks = looks + 1;
                }
            }
            proof {
                assert(looks == (round + 1) * count) by (nonlinear_arith)
                    requires
                        looks == round * count + count,
                ;
            }
            round = round + 1;
        }
        let index: usize = self.current_index % count;
        proof {
            lemma_cursor_step(before.cursor as int, looks);
        }
        self.current_index = self.current_index.wrapping_add(1);
        let health: Option<ProxyHealth> = health_get(
            &self.health_stats,
            self.proxies[index].name.as_str(),
        );
        match health {
            Some(known) => Some(self.hand_out(index, known, now)),
            None => {
                assert(before.health.contains_key(before.proxies[index as int].name@));
                assert(false);
                None
            },
        }
    }

    /// Notes that a proxy is being used.
    fn hand_out(&mut self, index: usize, known: ProxyHealth, now: u64) -> (r: ProxyEndpoint)
        requires
            index < old(self)@.proxies.len(),
        ensures
            r == old(self)@.proxies[index as int],
            final(self)@ == (ProxyView {
                health: old(self)@.health.insert(r.name@, used_health(known, now)),
                ..old(self)@
            }),
    {
        let picked: ProxyEndpoint = self.proxies[index].clone();
        health_insert(
            &mut self.health_stats,
            picked.name.as_str(),
            ProxyHealth { last_used: now, ..known },
        );
        picked
    }

    /// A request through a proxy was answered.
    pub fn report_success(&mut self, proxy_name: &str, now: u64)
        requires
            old(self)@.valid(),
        ensures
            final(self)@.valid(),
            final(self)@ == old(self)@.after_success(proxy_name@, now),
    {
        match health_get(&self.health_stats, proxy_name) {
            Some(known) => {
                let raised: u8 = known.health_score.saturating_add(5);
                let health_score: u8 = if raised > MAX_SCORE {
                    MAX_SCORE
                } else {
                    raised
                };
                let success_count: u64 = if known.success_count == u64::MAX {
                    0
                } else {
                    known.success_count + 1
                };
                health_insert(
                    &mut self.health_stats,
                    proxy_name,
                    ProxyHealth {
                        success_count,
                        last_success: Some(now),
                        last_used: now,
                        health_score,
                        ..known
                    },
                );
                proof {
                    lemma_valid_with(old(self)@, proxy_name@, success_health(known, now));
                }
            },
            None => {},
        }
    }

    /// A request through a proxy failed.
    pub fn report_failure(&mut self, proxy_name: &str, reason: &str, now: u64)
        requires
            old(self)@.valid(),
        ensures
            final(self)@.valid(),
            final(self)@ == old(self)@.after_failure(proxy_name@, reason@, now),
    {
        match health_get(&self.health_stats, proxy_name) {
            Some(known) => {
                let cost: u8 = if contains(reason, "unsuccessful tunnel") || contains(
                    reason,
                    "connection refused",
                ) {
                    20
                } else if contains(reason, "timeout") {
                    10
                } else {
                    5
                };
                let failure_count: u64 = if known.failure_count == u64::MAX {
                    0
                } else {
                    known.failure_count + 1
                };
                health_insert(
                    &mut self.health_stats,
                    proxy_name,
                    ProxyHealth {
                        failure_count,
                        last_failure: Some(now),
                        last_used: now,
                        health_score: known.health_score.saturating_sub(cost),
                        ..known
                    },
                );
                proof {
                    assert(old(self)@.health.contains_key(proxy_name@));
                    lemma_valid_with(old(self)@, proxy_name@, failure_health(known, reason@, now));
                }
            },
            None => {},
        }
    }

    /// A round of healing; returns how many proxies became better.
    pub fn heal(&mut self, now: u64) -> (r: usize)
        requires
            old(self)@.valid(),
        ensures
            final(self)@.valid(),
            final(self)@ == (ProxyView {
                health: old(self)@.health.map_values(|h: ProxyHealth| healed_health(h, now)),
                ..old(self)@
            }),
            r == old(self)@.health.dom().filter(
                |name: Seq<char>| heals(old(self)@.health[name], now),
            ).len(),
    {
        let list: Vec<(String, ProxyHealth)> = health_list(&self.health_stats);
        let ghost before = self@;
        let ghost mut better: Set<Seq<char>> = Set::empty();
        let mut healed: usize = 0;
        let mut i: usize = 0;
        while i < list.len()
            invariant
                i <= list.len(),
                healed <= i,
                better.finite(),
                better.len() == healed,
                forall|name: Seq<char>| #[trigger]
                    better.contains(name) ==> before.health.contains_key(name) && heals(
                        before.health[name],
                        now,
                    ),
                forall|k: int, name: Seq<char>|
                    i <= k < list.len() && #[trigger] better.contains(name) ==> (
                    #[trigger] list@[k]).0@ != name,
                forall|k: int|
                    0 <= k < i && heals((#[trigger] list@[k]).1, now) ==> better.contains(
                        list@[k].0@,
                    ),
                before == old(self)@,
                before.valid(),
                symbol_maps::lists_entries(before.health, list@),
                self@.enabled == before.enabled,
                self@.proxies == before.proxies,
                self@.cursor == before.cursor,
                self@.health.dom() == before.health.dom(),
                forall|k: int|
                    0 <= k < i ==> self@.health[(#[trigger] list@[k]).0@] == healed_health(
                        list@[k].1,
                        now,
                    ),
                forall|k: int|
                    i <= k < list.len() ==> self@.health[(#[trigger] list@[k]).0@] == list@[k].1,
            decreases list.len() - i,
        {
            let known: ProxyHealth = list[i].1;
            assert(before.health.contains_key(list@[i as int].0@));
            if known.health_score < MAX_SCORE && now.saturating_sub(known.last_used)
                > HEALING_IDLE_NANOS {
                let raised: u8 = known.health_score + 2;
                let health_score: u8 = if raised > MAX_SCORE {
                    MAX_SCORE
                } else {
                    raised
                };
                health_insert(
                    &mut self.health_stats,
                    list[i].0.as_str(),
                    ProxyHealth { health_score, ..known },
                );
                healed = healed + 1;
                proof {
                    better = better.insert(list@[i as int].0@);
                    assert(self@.health.dom() =~= before.health.dom());
                }
            }
            i = i + 1;
        }
        proof {
            let after = before.health.map_values(|h: ProxyHealth| healed_health(h, now));
            assert forall|name: Seq<char>| #[trigger] before.health.dom().contains(name) implies self@.health[name]
                == after[name] by {
                assert(before.health.contains_key(name));
                let k = choose|k: int| 0 <= k < list.len() && (#[trigger] list@[k]).0@ == name;
                assert(self@.health[list@[k].0@] == healed_health(list@[k].1, now));
            }
            assert(self@.health =~= after);
            let due = before.health.dom().filter(
                |name: Seq<char>| heals(before.health[name], now),
            );
            assert forall|name: Seq<char>| better.contains(name) <==> due.contains(name) by {
                if due.contains(name) {
                    assert(before.health.contains_key(name));
                    let k = choose|k: int| 0 <= k < list.len() && (#[trigger] list@[k]).0@ == name;
                    assert(better.contains(list@[k].0@));
                }
            }
            assert(better =~= due);
        }
        healed
    }

    /// How many proxies are healthy (70 and up), degraded (30 and up) and unhealthy.
    pub fn health_summary(&self) -> (r: HealthSummary)
        ensures
            is_summary(self@.health, r),
            r.healthy == scored(self@.health, 70, 256).len(),
            r.degraded == scored(self@.health, 30, 70).len(),
            r.unhealthy == scored(self@.health, 0, 30).len(),
    {
        let list: Vec<(String, ProxyHealth)> = health_list(&self.health_stats);
        let healthy: usize = count_scored(&list, 70, 256, Ghost(self@.health));
        let degraded: usize = count_scored(&list, 30, 70, Ghost(self@.health));
        let unhealthy: usize = count_scored(&list, 0, 30, Ghost(self@.health));
        HealthSummary { healthy, degraded, unhealthy }
    }

    /// Statistics of every proxy, by name. Of proxies with one name the last counts.
    pub fn get_stats(&self) -> (r: FxHashMap<String, ProxyStats>)
        requires
            self@.valid(),
        ensures
            describe_all(self@.proxies, self@.health, stats_entries(r)),
    {
        let mut stats: FxHashMap<String, ProxyStats> = stats_map();
        let mut i: usize = 0;
        assert(names_of(self@.proxies.take(0)) =~= Set::empty());
        while i < self.proxies.len()
            invariant
                i <= self.proxies.len(),
                self@.valid(),
                describe_all(self@.proxies.take(i as int), self@.health, stats_entries(stats)),
            decreases self.proxies.len() - i,
        {
            let proxy: &ProxyEndpoint = &self.proxies[i];
            assert(self@.health.contains_key(self@.proxies[i as int].name@));
            match health_get(&self.health_stats, proxy.name.as_str()) {
                Some(known) => {
                    let one: ProxyStats = ProxyStats {
                        name: proxy.name.clone(),
                        region: proxy.region.clone(),
                        success_count: known.success_count,
                        failure_count: known.failure_count,
                        health_score: known.health_score,
                        last_success: known.last_success,
                        last_failure: known.last_failure,
                    };
                    proof {
                        lemma_describe_one_more(
                            self@.proxies,
                            i as int,
                            self@.health,
                            stats_entries(stats),
                            one,
                        );
                    }
                    stats_insert(&mut stats, proxy.name.as_str(), one);
                },
                None => {
                    assert(false);
                },
            }
            i = i + 1;
        }
        assert(self@.proxies.take(self@.proxies.len() as int) =~= self@.proxies);
        stats
    }

    /// Whether requests go through proxies.
    pub fn is_enabled(&self) -> (r: bool)
        ensures
            r == (self@.enabled && self@.proxies.len() > 0),
    {
        self.enabled && self.proxies.len() > 0
    }

    /// How many proxies there are.
    pub fn count(&self) -> (r: usize)
        ensures
            r == self@.proxies.len(),
    {
        self.proxies.len()
    }
}

/// The proxies with a score of at least `low` and less than `high`.
pub open spec fn scored(health: Map<Seq<char>, ProxyHealth>, low: int, high: int) -> Set<
    Seq<char>,
> {
    health.dom().filter(|name: Seq<char>| low <= health[name].health_score < high)
}

/// Counts the proxies of a list with a score of at least `low` and less than `high`.
fn count_scored(
    list: &Vec<(String, ProxyHealth)>,
    low: u16,
    high: u16,
    Ghost(health): Ghost<Map<Seq<char>, ProxyHealth>>,
) -> (r: usize)
    requires
        symbol_maps::lists_entries(health, list@),
    ensures
        r == scored(health, low as int, high as int).len(),
{
    let mut count: usize = 0;
    let mut i: usize = 0;
    let ghost mut found: Set<Seq<char>> = Set::empty();
    while i < list.len()
        invariant
            i <= list.len(),
            count <= i,
            symbol_maps::lists_entries(health, list@),
            found.finite(),
            found.len() == count,
            forall|name: Seq<char>| #[trigger]
                found.contains(name) ==> scored(health, low as int, high as int).contains(name),
            forall|k: int, name: Seq<char>|
                i <= k < list.len() && #[trigger] found.contains(name) ==> (
                #[trigger] list@[k]).0@ != name,
            forall|k: int|
                0 <= k < i && low <= (#[trigger] list@[k]).1.health_score < high
                    ==> found.contains(list@[k].0@),
        decreases list.len() - i,
    {
        let score: u16 = list[i].1.health_score as u16;
        if low <= score && score < high {
            count = count + 1;
            proof {
                assert(health.contains_key(list@[i as int].0@));
                found = found.insert(list@[i as int].0@);
            }
        }
        i = i + 1;
    }
    proof {
        let due = scored(health, low as int, high as int);
        assert forall|name: Seq<char>| found.contains(name) <==> due.contains(name) by {
            if due.contains(name) {
                assert(health.contains_key(name));
                let k = choose|k: int| 0 <= k < list.len() && (#[trigger] list@[k]).0@ == name;
                assert(found.contains(list@[k].0@));
            }
        }
        assert(found =~= due);
    }
    count
}

/// Setting the health of a proxy to one with a proper score keeps a view valid.
proof fn lemma_valid_with(view: ProxyView, name: Seq<char>, health: ProxyHealth)
    requires
        view.valid(),
        health.health_score <= MAX_SCORE,
    ensures
        (ProxyView { health: view.health.insert(name, health), ..view }).valid(),
{
    let after = ProxyView { health: view.health.insert(name, health), ..view };
    assert forall|i: int| 0 <= i < after.proxies.len() implies after.health.contains_key(
        (#[trigger] after.proxies[i]).name@,
    ) by {
        assert(view.health.contains_key(view.proxies[i].name@));
    }
    assert forall|n: Seq<char>| #[trigger]
        after.health.contains_key(n) implies after.health[n].health_score <= MAX_SCORE by {
        if n != name {
            assert(view.health.contains_key(n));
        }
    }
}

/// One look moves the cursor by one.
proof fn lemma_cursor_step(cursor: int, n: int)
    requires
        0 <= cursor <= usize::MAX,
        0 <= n,
    ensures
        (cursor + n + 1) % (usize::MAX + 1) == (if (cursor + n) % (usize::MAX + 1) == usize::MAX {
            0
        } else {
            (cursor + n) % (usize::MAX + 1) + 1
        }),
{
    let m = usize::MAX + 1;
    vstd::arithmetic::div_mod::lemma_add_mod_noop(cursor + n, 1, m);
    if (cursor + n) % m == usize::MAX {
        vstd::arithmetic::div_mod::lemma_mod_self_0(m);
    } else {
        vstd::arithmetic::div_mod::lemma_small_mod(((cursor + n) % m + 1) as nat, m as nat);
    }
    vstd::arithmetic::div_mod::lemma_small_mod(1, m as nat);
}

/// The search stops no later than at a look that goes to a usable proxy.
proof fn lemma_skipped_stops(view: ProxyView, from: int, k: int)
    requires
        0 <= from <= k < 2 * view.proxies.len(),
        view.usable(view.slot(k)),
    ensures
        from <= view.skipped(from) <= k,
        view.usable(view.slot(view.skipped(from))),
    decreases k - from,
{
    if !view.usable(view.slot(from)) {
        lemma_skipped_stops(view, from + 1, k);
    }
}

/// Twice round, every proxy is looked at.
proof fn lemma_every_slot_is_seen(view: ProxyView, slot: int) -> (k: int)
    requires
        0 <= slot < view.proxies.len() <= usize::MAX,
    ensures
        0 <= k < 2 * view.proxies.len(),
        view.slot(k) == slot,
{
    let m = usize::MAX + 1;
    let n = view.proxies.len() as int;
    let c = view.cursor as int;
    if c + n <= m {
        let k = (slot - c) % n;
        vstd::arithmetic::div_mod::lemma_mod_bound(slot - c, n);
        vstd::arithmetic::div_mod::lemma_small_mod((c + k) as nat, m as nat);
        vstd::arithmetic::div_mod::lemma_add_mod_noop_right(c, slot - c, n);
        vstd::arithmetic::div_mod::lemma_small_mod(slot as nat, n as nat);
        k
    } else {
        let k = m - c + slot;
        assert(c + k == m + slot);
        vstd::arithmetic::div_mod::lemma_mod_add_multiples_vanish(slot, m);
        vstd::arithmetic::div_mod::lemma_small_mod(slot as nat, m as nat);
        vstd::arithmetic::div_mod::lemma_small_mod(slot as nat, n as nat);
        k
    }
}

/// A healthy proxy is picked whenever there is one.
pub proof fn healthy_proxy_is_preferred(view: ProxyView, slot: int)
    requires
        0 <= slot < view.proxies.len() <= usize::MAX,
        view.usable(slot),
    ensures
        view.usable(view.slot(view.skipped(0))),
{
    let k = lemma_every_slot_is_seen(view, slot);
    lemma_skipped_stops(view, 0, k);
}

/// When the next proxy in turn is healthy, it is the one that is picked: healthy
/// proxies share the load evenly.
pub proof fn healthy_proxies_take_turns(view: ProxyView)
    requires
        view.proxies.len() > 0,
        view.usable(view.slot(0)),
    ensures
        view.skipped(0) == 0,
{
}

/// Scores stay between 0 and 100 whatever happens to a proxy.
pub proof fn scores_are_bounded(health: ProxyHealth, reason: Seq<char>, now: u64)
    requires
        health.health_score <= MAX_SCORE,
    ensures
        success_health(health, now).health_score <= MAX_SCORE,
        failure_health(health, reason, now).health_score <= health.health_score,
        health.health_score <= healed_health(health, now).health_score <= MAX_SCORE,
        success_health(health, now).health_score >= health.health_score,
{
}

/// A proxy is named by its region and port, and is reached over HTTP with the configured
/// user and password at the configured host.
pub proof fn proxies_are_named_by_region_and_port(
    config: ProxyConfig,
    region: Seq<char>,
    port: u16,
    endpoint: ProxyEndpoint,
)
    requires
        is_endpoint(config, region, port, endpoint),
    ensures
        endpoint.region@ == region,
        endpoint.name@ == region + seq!['-'] + text::decimal(port as nat),
        endpoint.url@ == "http://"@ + (config.user@ + seq![':'] + config.password@) + seq!['@'] + (
        config.host@ + seq![':'] + text::decimal(port as nat)),
{
    assert(endpoint.url@ =~= "http://"@ + (config.user@ + seq![':'] + config.password@) + seq!['@']
        + (config.host@ + seq![':'] + text::decimal(port as nat)));
}

/// The proxies are those of Australia, then of Japan, of Denmark and of the United Kingdom,
/// each region in the order of its ports.
pub proof fn regions_come_in_order(config: ProxyConfig)
    ensures
        ({
            let au = config.au_ports@.len() as int;
            let jp = au + config.jp_ports@.len();
            let dk = jp + config.dk_ports@.len();
            let uk = dk + config.uk_ports@.len();
            &&& configured(config).len() == uk
            &&& forall|i: int|
                0 <= i < au ==> #[trigger] configured(config)[i] == ("AU"@, config.au_ports@[i])
            &&& forall|i: int|
                au <= i < jp ==> #[trigger] configured(config)[i] == (
                    "JP"@,
                    config.jp_ports@[i - au],
                )
            &&& forall|i: int|
                jp <= i < dk ==> #[trigger] configured(config)[i] == (
                    "DK"@,
                    config.dk_ports@[i - jp],
                )
            &&& forall|i: int|
                dk <= i < uk ==> #[trigger] configured(config)[i] == (
                    "UK"@,
                    config.uk_ports@[i - dk],
                )
        }),
{
}

/// A new proxy has the full score and nothing counted.
pub proof fn new_proxies_are_healthy(now: u64)
    ensures
        fresh_health(now).health_score == 100,
        fresh_health(now).success_count == 0,
        fresh_health(now).failure_count == 0,
        fresh_health(now).last_success is None,
        fresh_health(now).last_failure is None,
        fresh_health(now).last_used == now,
{
}

/// A success is counted, dated, and raises the score by five, to a hundred at most; what is
/// known of failures stays.
pub proof fn successes_raise_the_score(health: ProxyHealth, now: u64)
    ensures
        health.health_score <= 95 ==> success_health(health, now).health_score
            == health.health_score + 5,
        95 <= health.health_score <= 100 ==> success_health(health, now).health_score == 100,
        health.success_count < u64::MAX ==> success_health(health, now).success_count
            == health.success_count + 1,
        success_health(health, now).last_success == Some(now),
        success_health(health, now).last_used == now,
        success_health(health, now).failure_count == health.failure_count,
        success_health(health, now).last_failure == health.last_failure,
{
}

/// A failure is counted, dated, and lowers the score, to zero at least: by twenty where the
/// proxy could not be reached, by ten where it was too slow, by five otherwise; what is
/// known of successes stays.
pub proof fn failures_lower_the_score(health: ProxyHealth, reason: Seq<char>, now: u64)
    ensures
        ({
            let after = failure_health(health, reason, now);
            let unreached = text::contains_text(reason, "unsuccessful tunnel"@)
                || text::contains_text(reason, "connection refused"@);
            let slow = text::contains_text(reason, "timeout"@);
            &&& unreached && health.health_score >= 20 ==> after.health_score == health.health_score
                - 20
            &&& unreached && health.health_score < 20 ==> after.health_score == 0
            &&& !unreached && slow && health.health_score >= 10 ==> after.health_score
                == health.health_score - 10
            &&& !unreached && slow && health.health_score < 10 ==> after.health_score == 0
            &&& !unreached && !slow && health.health_score >= 5 ==> after.health_score
                == health.health_score - 5
            &&& !unreached && !slow && health.health_score < 5 ==> after.health_score == 0
            &&& health.failure_count < u64::MAX ==> after.failure_count == health.failure_count + 1
            &&& after.last_failure == Some(now)
            &&& after.last_used == now
            &&& after.success_count == health.success_count
            &&& after.last_success == health.last_success
        }),
{
}

/// A proxy that was not used for more than five minutes gets two points back, to a hundred
/// at most; any other stays as it is.
pub proof fn idle_proxies_heal(health: ProxyHealth, now: u64)
    ensures
        health.last_used + 300_000_000_000 < now && health.health_score <= 98 ==> healed_health(
            health,
            now,
        ).health_score == health.health_score + 2,
        health.last_used + 300_000_000_000 < now && health.health_score == 99 ==> healed_health(
            health,
            now,
        ).health_score == 100,
        health.last_used + 300_000_000_000 >= now || health.health_score >= 100 ==> healed_health(
            health,
            now,
        ) == health,
        healed_health(health, now).last_used == health.last_used,
        healed_health(health, now).success_count == health.success_count,
        healed_health(health, now).failure_count == health.failure_count,
        healed_health(health, now).last_success == health.last_success,
        healed_health(health, now).last_failure == health.last_failure,
        heals(health, now) <==> healed_health(health, now) != health,
{
}

/// A success or a failure concerns the proxy of that name alone.
pub proof fn reports_concern_one_proxy(
    view: ProxyView,
    name: Seq<char>,
    other: Seq<char>,
    reason: Seq<char>,
    now: u64,
)
    requires
        other != name,
    ensures
        ({
            let up = view.after_success(name, now);
            let down = view.after_failure(name, reason, now);
            &&& up.health.dom() == view.health.dom() && down.health.dom() == view.health.dom()
            &&& up.health[other] == view.health[other] && down.health[other] == view.health[other]
            &&& view.health.contains_key(name) ==> up.health[name].last_success == Some(now)
                && down.health[name].last_failure == Some(now)
            &&& up.proxies == view.proxies && down.proxies == view.proxies
            &&& up.cursor == view.cursor && down.cursor == view.cursor
            &&& up.enabled == view.enabled && down.enabled == view.enabled
        }),
{
    assert(view.after_success(name, now).health.dom() =~= view.health.dom());
    assert(view.after_failure(name, reason, now).health.dom() =~= view.health.dom());
}

/// The proxy handed out is the next one from the cursor on whose score is above ten; those
/// skipped have ten or less. Where two rounds find none, the one at the cursor's end is
/// taken.
pub proof fn the_next_usable_proxy_is_picked(view: ProxyView, now: u64)
    requires
        0 < view.proxies.len(),
        view.cursor + 2 * view.proxies.len() < usize::MAX,
    ensures
        ({
            let n = view.proxies.len() as int;
            let skipped = view.skipped(0);
            let at = (view.cursor + skipped) % n;
            let after = view.after_pick(now);
            &&& 0 <= skipped <= 2 * n
            &&& view.picked() == view.proxies[at]
            &&& forall|k: int|
                0 <= k < skipped ==> view.health[#[trigger] view.proxies[(view.cursor + k)
                    % n].name@].health_score <= 10
            &&& skipped < 2 * n ==> view.health[view.picked().name@].health_score >= 11
            &&& after.cursor == view.cursor + skipped + 1
            &&& after.health[view.picked().name@].last_used == now
            &&& after.health[view.picked().name@].health_score
                == view.health[view.picked().name@].health_score
            &&& forall|name: Seq<char>|
                name != view.picked().name@ ==> #[trigger] after.health[name] == view.health[name]
            &&& after.proxies == view.proxies && after.enabled == view.enabled
        }),
{
    let n = view.proxies.len() as int;
    lemma_skipped_are_unusable(view, 0);
    let skipped = view.skipped(0);
    assert forall|k: int| 0 <= k < skipped implies view.health[#[trigger] view.proxies[(view.cursor
        + k) % n].name@].health_score <= 10 by {
        assert(!view.usable(view.slot(k)));
        lemma_small_cursor(view, k);
    }
    lemma_small_cursor(view, skipped);
    assert((view.cursor + skipped + 1) % (usize::MAX + 1) == view.cursor + skipped + 1)
        by (nonlinear_arith)
        requires
            0 <= view.cursor + skipped + 1 <= usize::MAX,
    ;
}

proof fn lemma_small_cursor(view: ProxyView, k: int)
    requires
        0 < view.proxies.len(),
        0 <= k,
        view.cursor + k <= usize::MAX,
    ensures
        view.slot(k) == (view.cursor + k) % view.proxies.len() as int,
{
    assert((view.cursor + k) % (usize::MAX + 1) == view.cursor + k) by (nonlinear_arith)
        requires
            0 <= view.cursor + k <= usize::MAX,
    ;
}

proof fn lemma_skipped_are_unusable(view: ProxyView, from: int)
    requires
        0 <= from <= 2 * view.proxies.len(),
    ensures
        from <= view.skipped(from) <= 2 * view.proxies.len(),
        forall|k: int| from <= k < view.skipped(from) ==> !view.usable(#[trigger] view.slot(k)),
        view.skipped(from) < 2 * view.proxies.len() ==> view.usable(view.slot(view.skipped(from))),
    decreases 2 * view.proxies.len() - from,
{
    if from < 2 * view.proxies.len() && !view.usable(view.slot(from)) {
        lemma_skipped_are_unusable(view, from + 1);
    }
}

/// Every known proxy is counted once: as healthy from 70 points on, as degraded from 30 on,
/// as unhealthy below.
pub proof fn every_proxy_is_counted_once(
    health: Map<Seq<char>, ProxyHealth>,
    name: Seq<char>,
    low: int,
    high: int,
)
    ensures
        scored(health, low, high).contains(name) <==> health.contains_key(name) && low
            <= health[name].health_score && health[name].health_score < high,
        health.contains_key(name) ==> {
            &&& health[name].health_score >= 70 <==> scored(health, 70, 256).contains(name)
            &&& 30 <= health[name].health_score <= 69 <==> scored(health, 30, 70).contains(name)
            &&& health[name].health_score <= 29 <==> scored(health, 0, 30).contains(name)
        },
{
}

/// The statistics of a proxy tell its own counts, times and score.
pub proof fn statistics_tell_of_the_proxy(
    proxy: ProxyEndpoint,
    health: ProxyHealth,
    stats: ProxyStats,
    reason: Seq<char>,
    now: u64,
    later: ProxyStats,
)
    requires
        describes(proxy, health, stats),
        describes(proxy, failure_health(health, reason, now), later),
        health.failure_count < u64::MAX,
    ensures
        stats.name@ == proxy.name@ && stats.region@ == proxy.region@,
        later.failure_count == stats.failure_count + 1,
        later.success_count == stats.success_count,
        later.last_failure == Some(now),
        later.last_success == stats.last_success,
        later.health_score <= stats.health_score,
        stats.health_score == health.health_score,
        stats.success_count == health.success_count,
        stats.last_failure == health.last_failure,
{
}

/// `summary` counts the proxies by their shape.
pub open spec fn is_summary(health: Map<Seq<char>, ProxyHealth>, summary: HealthSummary) -> bool {
    &&& summary.healthy == scored(health, 70, 256).len()
    &&& summary.degraded == scored(health, 30, 70).len()
    &&& summary.unhealthy == scored(health, 0, 30).len()
}

/// A summary counts every proxy once. It is healthy with 70 points or more, unhealthy below
/// 30, degraded in between.
pub proof fn summaries_count_every_proxy(
    health: Map<Seq<char>, ProxyHealth>,
    summary: HealthSummary,
)
    requires
        health.dom().finite(),
        is_summary(health, summary),
    ensures
        summary.healthy + summary.degraded + summary.unhealthy == health.dom().len(),
        (forall|name: Seq<char>| #[trigger]
            health.contains_key(name) ==> health[name].health_score >= 70) ==> summary.healthy
            == health.dom().len(),
        (forall|name: Seq<char>| #[trigger]
            health.contains_key(name) ==> 30 <= health[name].health_score <= 69)
            ==> summary.degraded == health.dom().len(),
        (forall|name: Seq<char>| #[trigger]
            health.contains_key(name) ==> health[name].health_score <= 29) ==> summary.unhealthy
            == health.dom().len(),
{
    let high = scored(health, 70, 256);
    let middle = scored(health, 30, 70);
    let low = scored(health, 0, 30);
    vstd::set_lib::lemma_len_subset(high, health.dom());
    vstd::set_lib::lemma_len_subset(middle, health.dom());
    vstd::set_lib::lemma_len_subset(low, health.dom());
    assert(high.disjoint(middle));
    assert((high + middle).disjoint(low));
    vstd::set_lib::lemma_set_disjoint_lens(high, middle);
    vstd::set_lib::lemma_set_disjoint_lens(high + middle, low);
    assert(high + middle + low =~= health.dom());
    if forall|name: Seq<char>| #[trigger]
        health.contains_key(name) ==> health[name].health_score >= 70 {
        assert(high =~= health.dom());
    }
    if forall|name: Seq<char>| #[trigger]
        health.contains_key(name) ==> 30 <= health[name].health_score <= 69 {
        assert(middle =~= health.dom());
    }
    if forall|name: Seq<char>| #[trigger]
        health.contains_key(name) ==> health[name].health_score <= 29 {
        assert(low =~= health.dom());
    }
}

/// There are statistics of exactly the proxies that there are; where each name is used once,
/// those under a name tell of the proxy of that name.
pub proof fn every_proxy_has_its_statistics(
    proxies: Seq<ProxyEndpoint>,
    health: Map<Seq<char>, ProxyHealth>,
    stats: Map<Seq<char>, ProxyStats>,
    i: int,
    name: Seq<char>,
)
    requires
        describe_all(proxies, health, stats),
        0 <= i < proxies.len(),
        forall|j: int| i < j < proxies.len() ==> (#[trigger] proxies[j]).name@ != proxies[i].name@,
    ensures
        stats.contains_key(proxies[i].name@),
        stats[proxies[i].name@].name@ == proxies[i].name@,
        stats[proxies[i].name@].region@ == proxies[i].region@,
        stats[proxies[i].name@].success_count == health[proxies[i].name@].success_count,
        stats[proxies[i].name@].failure_count == health[proxies[i].name@].failure_count,
        stats[proxies[i].name@].health_score == health[proxies[i].name@].health_score,
        (forall|j: int| 0 <= j < proxies.len() ==> (#[trigger] proxies[j]).name@ != name)
            ==> !stats.contains_key(name),
{
    assert(is_last_of_name(proxies, i));
    assert(names_of(proxies).contains(proxies[i].name@));
    assert(describes(proxies[i], health[proxies[i].name@], stats[proxies[i].name@]));
}

} // verus!
