//! The chains that the proxy serves, and the endpoints of each: how they are read, and how they are
//! made from a public list.

use crate::string_map::StringMap;
use crate::text;
use vstd::prelude::*;

verus! {

/// The addresses of the endpoints of each chain, by the chain's name.
pub type ChainsConfig = StringMap<Vec<String>>;

/// What `serde_json::from_str` makes of the text of a configuration: the addresses of each chain, or
/// the message of its error.
pub uninterp spec fn parsed_config(text: Seq<char>) -> Result<
    Map<Seq<char>, Seq<Seq<char>>>,
    Seq<char>,
>;

/// The chains of a list, by name: where a name comes twice, the later one counts.
pub open spec fn listed(entries: Seq<(String, Vec<String>)>) -> Map<Seq<char>, Seq<Seq<char>>>
    decreases entries.len(),
{
    if entries.len() == 0 {
        Map::empty()
    } else {
        listed(entries.drop_last()).insert(entries.last().0@, text::texts(entries.last().1@))
    }
}

/// `serde_json::from_str` for a map from strings to lists of strings: the entries of the map, in no
/// particular order, or the message of the error. Nothing is said here of which text spells which
/// map.
#[verifier::external_body]
fn parse_config(text: &str) -> (r: Result<Vec<(String, Vec<String>)>, String>)
    ensures
        parsed_config(text@) == (match r {
            Ok(entries) => Ok::<Map<Seq<char>, Seq<Seq<char>>>, Seq<char>>(listed(entries@)),
            Err(message) => Err::<Map<Seq<char>, Seq<Seq<char>>>, Seq<char>>(message@),
        }),
{
    match serde_json::from_str::<std::collections::HashMap<String, Vec<String>>>(text) {
        Ok(config) => Ok(config.into_iter().collect()),
        Err(error) => Err(error.to_string()),
    }
}

/// The configuration that lists the given chains.
pub fn config_of(entries: Vec<(String, Vec<String>)>) -> (r: ChainsConfig)
    ensures
        r@ == listed(entries@),
{
    let ghost all = entries@;
    let mut config: ChainsConfig = StringMap::new();
    assert(all.take(0) =~= Seq::empty());
    for entry in it: entries
        invariant
            it.seq() == all,
            config@ == listed(all.take(it.index() as int)),
    {
        let ghost n = it.index() as int;
        let (name, urls) = entry;
        proof {
            assert(all.take(n + 1).drop_last() =~= all.take(n));
            assert(all.take(n + 1).last() == all[n]);
            assert(urls.deep_view() =~= text::texts(urls@));
        }
        config.insert(name, urls);
    }
    assert(all.take(all.len() as int) =~= all);
    config
}

/// The configuration that a text spells, or why it spells none.
pub fn load_config_from_str(text: &str) -> (r: Result<ChainsConfig, String>)
    ensures
        match parsed_config(text@) {
            Ok(chains) => r matches Ok(config) && config@ == chains,
            Err(message) => r matches Err(m) && m@ == message,
        },
{
    match parse_config(text) {
        Ok(entries) => Ok(config_of(entries)),
        Err(message) => Err(message),
    }
}

/// An endpoint with more said of it than its address.
pub struct RpcObject {
    pub url: Option<String>,
}

/// An endpoint in a public list of chains.
pub enum RpcEntry {
    /// Its address.
    Simple(String),
    /// An object, which may hold its address.
    Detailed(RpcObject),
}

/// A chain in a public list.
pub struct ChainEntry {
    pub chain_id: u64,
    pub is_testnet: bool,
    pub rpc: Vec<RpcEntry>,
}

impl RpcEntry {
    /// The address of the endpoint, if there is one.
    pub open spec fn url(self) -> Option<Seq<char>> {
        match self {
            RpcEntry::Simple(url) => Some(url@),
            RpcEntry::Detailed(object) => text::opt_string(object.url),
        }
    }

    /// The address of the endpoint, if there is one.
    pub fn as_url(&self) -> (r: Option<&str>)
        ensures
            text::opt_text(r) == self.url(),
    {
        match self {
            RpcEntry::Simple(url) => Some(url.as_str()),
            RpcEntry::Detailed(object) => match &object.url {
                Some(url) => Some(url.as_str()),
                None => None,
            },
        }
    }
}

/// The digit that stands for a number below ten.
pub open spec fn digit_of(d: nat) -> char {
    "0123456789"@[d as int]
}

/// The decimal digits of a number.
pub open spec fn decimal(n: nat) -> Seq<char>
    decreases n,
{
    if n < 10 {
        seq![digit_of(n)]
    } else {
        decimal(n / 10).push(digit_of(n % 10))
    }
}

/// The decimal digits of a number.
pub fn decimal_text(n: u64) -> (r: String)
    ensures
        r@ == decimal(n as nat),
    decreases n,
{
    let d: usize = (n % 10) as usize;
    proof {
        reveal_strlit("0123456789");
    }
    let digit = "0123456789".substring_char(d, d + 1);
    assert(digit@ =~= seq![digit_of(d as nat)]);
    if n < 10 {
        return digit.to_owned();
    }
    let mut r = decimal_text(n / 10);
    let ghost before = r@;
    r.append(digit);
    assert(r@ =~= before.push(digit_of(d as nat)));
    r
}

/// Whether an address is one of the web.
pub open spec fn web_address(url: Seq<char>) -> bool {
    "http://"@.is_prefix_of(url) || "https://"@.is_prefix_of(url)
}

fn is_web_address(url: &str) -> (r: bool)
    ensures
        r == web_address(url@),
{
    text::strip_prefix(url, "http://").is_some() || text::strip_prefix(url, "https://").is_some()
}

/// The addresses of a chain's endpoints: those of the web, trimmed, each where it first occurs.
pub open spec fn addresses(rpc: Seq<RpcEntry>) -> Seq<Seq<char>>
    decreases rpc.len(),
{
    if rpc.len() == 0 {
        Seq::empty()
    } else {
        let before = addresses(rpc.drop_last());
        match rpc.last().url() {
            Some(url) => {
                let trimmed = text::trimmed(url);
                if web_address(trimmed) && !before.contains(trimmed) {
                    before.push(trimmed)
                } else {
                    before
                }
            },
            None => before,
        }
    }
}

/// The configuration that a public list of chains leads to: no test network, and no chain without
/// endpoints.
pub open spec fn snapshot(chains: Seq<ChainEntry>) -> Map<Seq<char>, Seq<Seq<char>>>
    decreases chains.len(),
{
    if chains.len() == 0 {
        Map::empty()
    } else {
        let before = snapshot(chains.drop_last());
        let chain = chains.last();
        if chain.is_testnet || addresses(chain.rpc@).len() == 0 {
            before
        } else {
            before.insert(decimal(chain.chain_id as nat), addresses(chain.rpc@))
        }
    }
}

fn is_among(list: &Vec<String>, s: &str) -> (r: bool)
    ensures
        r == text::texts(list@).contains(s@),
{
    let mut i: usize = 0;
    while i < list.len()
        invariant
            i <= list.len(),
            forall|j: int| 0 <= j < i ==> list@[j]@ != s@,
        decreases list.len() - i,
    {
        if text::same_text(list[i].as_str(), s) {
            assert(text::texts(list@)[i as int] == s@);
            return true;
        }
        i += 1;
    }
    false
}

fn read_addresses(rpc: &Vec<RpcEntry>) -> (r: Vec<String>)
    ensures
        text::texts(r@) == addresses(rpc@),
{
    let mut urls: Vec<String> = Vec::new();
    let mut i: usize = 0;
    assert(rpc@.take(0) =~= Seq::empty());
    assert(text::texts(urls@) =~= Seq::empty());
    while i < rpc.len()
        invariant
            i <= rpc.len(),
            text::texts(urls@) == addresses(rpc@.take(i as int)),
        decreases rpc.len() - i,
    {
        assert(rpc@.take(i + 1).drop_last() =~= rpc@.take(i as int));
        assert(rpc@.take(i + 1).last() == rpc@[i as int]);
        if let Some(url) = rpc[i].as_url() {
            let trimmed = text::trim(url);
            if is_web_address(trimmed) && !is_among(&urls, trimmed) {
                let ghost before = urls@;
                urls.push(trimmed.to_owned());
                assert(text::texts(urls@) =~= text::texts(before).push(trimmed@));
            }
        }
        i += 1;
    }
    assert(rpc@.take(i as int) =~= rpc@);
    urls
}

/// The configuration that a public list of chains leads to.
pub fn build_config(chains: &Vec<ChainEntry>) -> (r: ChainsConfig)
    ensures
        r@ == snapshot(chains@),
{
    let mut config: ChainsConfig = StringMap::new();
    let mut i: usize = 0;
    assert(chains@.take(0) =~= Seq::empty());
    while i < chains.len()
        invariant
            i <= chains.len(),
            config@ == snapshot(chains@.take(i as int)),
        decreases chains.len() - i,
    {
        assert(chains@.take(i + 1).drop_last() =~= chains@.take(i as int));
        assert(chains@.take(i + 1).last() == chains@[i as int]);
        if !chains[i].is_testnet {
            let urls = read_addresses(&chains[i].rpc);
            assert(urls.deep_view() =~= text::texts(urls@));
            if urls.len() > 0 {
                config.insert(decimal_text(chains[i].chain_id), urls);
            }
        }
        i += 1;
    }
    assert(chains@.take(i as int) =~= chains@);
    config
}

/// Where the health of endpoints is kept when nothing else is said: the parts of a path, which are
/// to be joined. A file that is named counts, even when its name is blank, which keeps nothing; else
/// it is a file below the home directory, if there is one.
pub open spec fn health_path(file: Option<Seq<char>>, home: Option<Seq<char>>) -> Option<
    Seq<Seq<char>>,
> {
    match file {
        Some(name) => if text::trimmed(name).len() > 0 {
            Some(seq![text::trimmed(name)])
        } else {
            None
        },
        None => match home {
            Some(directory) => if text::trimmed(directory).len() > 0 {
                Some(seq![directory, ".singlerpc"@, "health.json"@])
            } else {
                None
            },
            None => None,
        },
    }
}

/// Where the health of endpoints is kept when nothing else is said, given the values of
/// `SINGLERPC_HEALTH_FILE` and `HOME`: the parts of a path, which are to be joined.
pub fn default_health_store_path(file: Option<&str>, home: Option<&str>) -> (r: Option<Vec<String>>)
    ensures
        (match r {
            Some(parts) => Some(text::texts(parts@)),
            None => None,
        }) == health_path(text::opt_text(file), text::opt_text(home)),
{
    let mut parts: Vec<String> = Vec::new();
    if let Some(file) = file {
        let trimmed = text::trim(file);
        if trimmed.is_empty() {
            return None;
        }
        parts.push(trimmed.to_owned());
        assert(text::texts(parts@) =~= seq![trimmed@]);
        return Some(parts);
    }
    match home {
        Some(home) => {
            if text::trim(home).is_empty() {
                return None;
            }
            parts.push(home.to_owned());
            parts.push(".singlerpc".to_owned());
            parts.push("health.json".to_owned());
            assert(text::texts(parts@) =~= seq![home@, ".singlerpc"@, "health.json"@]);
            Some(parts)
        },
        None => None,
    }
}

/// Whether an endpoint in a public list has the given address, but for white space at its ends.
pub open spec fn names_address(entry: RpcEntry, address: Seq<char>) -> bool {
    entry.url() matches Some(url) && text::trimmed(url) == address
}

/// The addresses of a chain are addresses of the web, without white space at their ends, each listed
/// once.
pub proof fn law_addresses_are_distinct_web_addresses(rpc: Seq<RpcEntry>)
    ensures
        addresses(rpc).no_duplicates(),
        forall|i: int|
            0 <= i < addresses(rpc).len() ==> web_address(#[trigger] addresses(rpc)[i]) && exists|
                j: int,
            |
                0 <= j < rpc.len() && names_address(#[trigger] rpc[j], addresses(rpc)[i]),
    decreases rpc.len(),
{
    if rpc.len() > 0 {
        let rest = rpc.drop_last();
        law_addresses_are_distinct_web_addresses(rest);
        assert forall|i: int| 0 <= i < addresses(rpc).len() implies web_address(
            #[trigger] addresses(rpc)[i],
        ) && exists|j: int|
            0 <= j < rpc.len() && names_address(#[trigger] rpc[j], addresses(rpc)[i]) by {
            if i < addresses(rest).len() {
                assert(addresses(rest)[i] == addresses(rpc)[i]);
                let j = choose|j: int|
                    0 <= j < rest.len() && names_address(#[trigger] rest[j], addresses(rest)[i]);
                assert(rpc[j] == rest[j]);
            } else {
                assert(rpc[rpc.len() - 1] == rpc.last());
            }
        }
    }
}

/// No address of the web that is listed for a chain is left out.
pub proof fn law_no_web_address_is_left_out(rpc: Seq<RpcEntry>, j: int)
    requires
        0 <= j < rpc.len(),
        rpc[j].url() is Some,
        web_address(text::trimmed(rpc[j].url()->0)),
    ensures
        addresses(rpc).contains(text::trimmed(rpc[j].url()->0)),
    decreases rpc.len(),
{
    let rest = rpc.drop_last();
    let t = text::trimmed(rpc[j].url()->0);
    if j < rest.len() {
        law_no_web_address_is_left_out(rest, j);
        let k = addresses(rest).index_of(t);
        assert(addresses(rpc)[k] == t);
    } else if !addresses(rest).contains(t) {
        assert(addresses(rpc).last() == t);
    }
}

/// Every chain of a configuration that is made from a public list is one of the list that is no test
/// network, with its addresses, of which there are some.
pub proof fn law_a_snapshot_holds_no_test_network(chains: Seq<ChainEntry>, name: Seq<char>)
    requires
        snapshot(chains).contains_key(name),
    ensures
        exists|i: int|
            {
                &&& 0 <= i < chains.len()
                &&& !(#[trigger] chains[i]).is_testnet
                &&& decimal(chains[i].chain_id as nat) == name
                &&& snapshot(chains)[name] == addresses(chains[i].rpc@)
                &&& snapshot(chains)[name].len() > 0
            },
    decreases chains.len(),
{
    if chains.len() > 0 {
        let rest = chains.drop_last();
        let last = chains.last();
        if !last.is_testnet && addresses(last.rpc@).len() > 0 && decimal(last.chain_id as nat)
            == name {
            assert(chains[chains.len() - 1] == last);
        } else {
            law_a_snapshot_holds_no_test_network(rest, name);
            let i = choose|i: int|
                {
                    &&& 0 <= i < rest.len()
                    &&& !(#[trigger] rest[i]).is_testnet
                    &&& decimal(rest[i].chain_id as nat) == name
                    &&& snapshot(rest)[name] == addresses(rest[i].rpc@)
                    &&& snapshot(rest)[name].len() > 0
                };
            assert(chains[i] == rest[i]);
        }
    }
}

/// No main network of a public list that has an address of the web is left out.
pub proof fn law_no_main_network_is_left_out(chains: Seq<ChainEntry>, i: int)
    requires
        0 <= i < chains.len(),
        !chains[i].is_testnet,
        addresses(chains[i].rpc@).len() > 0,
    ensures
        snapshot(chains).contains_key(decimal(chains[i].chain_id as nat)),
    decreases chains.len(),
{
    if i < chains.len() - 1 {
        law_no_main_network_is_left_out(chains.drop_last(), i);
    }
}

/// Different numbers have different names.
pub proof fn law_names_tell_numbers_apart(m: nat, n: nat)
    requires
        decimal(m) == decimal(n),
    ensures
        m == n,
    decreases m,
{
    assert(decimal(m).last() == digit_of(m % 10));
    assert(decimal(n).last() == digit_of(n % 10));
    lemma_digit(m % 10);
    lemma_digit(n % 10);
    lemma_decimal_is_not_empty(m / 10);
    lemma_decimal_is_not_empty(n / 10);
    assert(decimal(m).len() == 1 <==> m < 10);
    assert(decimal(n).len() == 1 <==> n < 10);
    if m >= 10 {
        assert(decimal(m).drop_last() =~= decimal(m / 10));
        assert(decimal(n).drop_last() =~= decimal(n / 10));
        law_names_tell_numbers_apart(m / 10, n / 10);
    }
}

proof fn lemma_digit(d: nat)
    requires
        d < 10,
    ensures
        digit_of(d) as u32 == '0' as u32 + d,
{
    reveal_strlit("0123456789");
    assert(d == 0 || d == 1 || d == 2 || d == 3 || d == 4 || d == 5 || d == 6 || d == 7 || d == 8
        || d == 9);
}

proof fn lemma_decimal_is_not_empty(n: nat)
    ensures
        decimal(n).len() > 0,
{
}

/// Whether a text begins with `http://` or `https://`.
pub open spec fn begins_as_web(s: Seq<char>) -> bool {
    ||| seq!['h', 't', 't', 'p', ':', '/', '/'].is_prefix_of(s)
    ||| seq!['h', 't', 't', 'p', 's', ':', '/', '/'].is_prefix_of(s)
}

proof fn lemma_web_prefixes()
    ensures
        "http://"@ == seq!['h', 't', 't', 'p', ':', '/', '/'],
        "https://"@ == seq!['h', 't', 't', 'p', 's', ':', '/', '/'],
{
    reveal_strlit("http://");
    reveal_strlit("https://");
    assert("http://"@ =~= seq!['h', 't', 't', 'p', ':', '/', '/']);
    assert("https://"@ =~= seq!['h', 't', 't', 'p', 's', ':', '/', '/']);
}

/// An entry of a public list names the address it is or holds.
pub proof fn law_an_entry_names_the_address_it_holds(entry: RpcEntry)
    ensures
        entry matches RpcEntry::Simple(url) ==> entry.url() == Some(url@),
        entry matches RpcEntry::Detailed(object) ==> (object.url matches Some(url) ==> entry.url()
            == Some(url@)),
        entry matches RpcEntry::Detailed(object) ==> (object.url is None ==> entry.url() is None),
{
}

/// The addresses of a chain are exactly the listed ones that, but for white space at their ends, begin
/// with `http://` or `https://`, whatever follows. Each stands there once. What was listed first stands
/// first: the addresses of a beginning of the list are a beginning of the addresses.
pub proof fn law_exactly_the_web_addresses_are_kept(rpc: Seq<RpcEntry>, address: Seq<char>, k: int)
    requires
        0 <= k <= rpc.len(),
    ensures
        addresses(rpc).contains(address) <==> begins_as_web(address) && exists|j: int|
            0 <= j < rpc.len() && names_address(#[trigger] rpc[j], address),
        addresses(rpc).no_duplicates(),
        addresses(rpc.take(k)).is_prefix_of(addresses(rpc)),
    decreases rpc.len(),
{
    lemma_web_prefixes();
    law_addresses_are_distinct_web_addresses(rpc);
    if begins_as_web(address) && exists|j: int|
        0 <= j < rpc.len() && names_address(#[trigger] rpc[j], address) {
        let j = choose|j: int| 0 <= j < rpc.len() && names_address(#[trigger] rpc[j], address);
        law_no_web_address_is_left_out(rpc, j);
    }
    if addresses(rpc).contains(address) {
        let i = addresses(rpc).index_of(address);
        assert(addresses(rpc)[i] == address);
    }
    if k < rpc.len() {
        law_exactly_the_web_addresses_are_kept(rpc.drop_last(), address, k);
        assert(rpc.drop_last().take(k) =~= rpc.take(k));
        let part = addresses(rpc.take(k));
        let most = addresses(rpc.drop_last());
        assert(most.is_prefix_of(addresses(rpc)));
        assert(part.is_prefix_of(addresses(rpc))) by {
            assert forall|i: int| 0 <= i < part.len() implies part[i] == addresses(rpc)[i] by {
                assert(part[i] == most[i]);
            }
            assert(part =~= addresses(rpc).subrange(0, part.len() as int));
        }
    } else {
        assert(rpc.take(k) =~= rpc);
        assert(addresses(rpc) =~= addresses(rpc).subrange(0, addresses(rpc).len() as int));
    }
}

/// A configuration is made chain by chain: one more chain adds its addresses under its number, if it is
/// no test network and has any, and changes nothing else.
pub proof fn law_one_more_chain_changes_its_own_entry(
    chains: Seq<ChainEntry>,
    chain: ChainEntry,
    name: Seq<char>,
)
    ensures
        snapshot(Seq::empty()) == Map::<Seq<char>, Seq<Seq<char>>>::empty(),
        !chain.is_testnet && addresses(chain.rpc@).len() > 0 && name == decimal(
            chain.chain_id as nat,
        ) ==> snapshot(chains.push(chain)).contains_key(name) && snapshot(chains.push(chain))[name]
            == addresses(chain.rpc@),
        chain.is_testnet || addresses(chain.rpc@).len() == 0 || name != decimal(
            chain.chain_id as nat,
        ) ==> {
            &&& snapshot(chains.push(chain)).contains_key(name) <==> snapshot(chains).contains_key(
                name,
            )
            &&& snapshot(chains).contains_key(name) ==> snapshot(chains.push(chain))[name]
                == snapshot(chains)[name]
        },
{
    assert(chains.push(chain).drop_last() =~= chains);
}

/// A listed configuration is made entry by entry, and the later of two with one name counts.
pub proof fn law_one_more_entry_changes_its_own_chain(
    entries: Seq<(String, Vec<String>)>,
    entry: (String, Vec<String>),
)
    ensures
        listed(Seq::empty()) == Map::<Seq<char>, Seq<Seq<char>>>::empty(),
        listed(entries.push(entry)) == listed(entries).insert(entry.0@, text::texts(entry.1@)),
{
    assert(entries.push(entry).drop_last() =~= entries);
}

/// Numbers are written in decimal: a digit is its own character, and one more digit on the right makes
/// ten times the number and that digit.
pub proof fn law_numbers_are_written_in_decimal(m: nat, d: nat)
    requires
        d < 10,
    ensures
        decimal(d) == seq![(48 + d) as char],
        m > 0 ==> decimal(10 * m + d) == decimal(m).push((48 + d) as char),
{
    lemma_digit(d);
    assert(digit_of(d) == (48 + d) as char);
    assert((10 * m + d) % 10 == d && (10 * m + d) / 10 == m);
}

/// The health file is the one that is named, without white space at the ends of its name, unless the name
/// is blank; where none is named it is a file below the home directory, unless that is blank.
pub proof fn law_where_the_health_file_is(
    file: Option<Seq<char>>,
    home: Option<Seq<char>>,
)
    ensures
        file matches Some(name) ==> (if text::trimmed(name).len() > 0 {
            health_path(file, home) == Some(seq![text::trimmed(name)])
        } else {
            health_path(file, home) is None
        }),
        file is None ==> (home matches Some(directory) ==> (if text::trimmed(directory).len() > 0 {
            health_path(file, home) == Some(seq![directory, ".singlerpc"@, "health.json"@])
        } else {
            health_path(file, home) is None
        })),
        file is None && home is None ==> health_path(file, home) is None,
{
}

} // verus!
