//! Reconciliation decisions: the registered domains, the content each
//! record should carry given the discovered public address and the
//! registration's suffix, whether a record needs an update, and whether a
//! whole run can be skipped because nothing changed recently.

use vstd::prelude::*;

use crate::config::{clone_opt_string, Config};
use crate::error::Error;
use crate::rewrite::{replace_ipv4_suffix, replace_ipv6_suffix, replace_ipv6_spec, replace_tail};
use crate::strutil::{spec_parse_u64, parse_u64, split, split_str};

verus! {

/// One registered domain: which address families are kept up to date, and
/// the optional suffix that overrides the trailing part of the discovered
/// address for each family.
pub struct DomainRegistration {
    pub domain: String,
    pub v4_disabled: bool,
    pub v4_suffix: Option<String>,
    pub v6_disabled: bool,
    pub v6_suffix: Option<String>,
}

impl DomainRegistration {
    /// A registration built from its parts.
    pub fn new(
        domain: &String,
        disable_v4: &bool,
        v4_suffix: &Option<String>,
        disable_v6: &bool,
        v6_suffix: &Option<String>,
    ) -> (r: DomainRegistration)
        ensures
            r.domain@ == domain@,
            r.v4_disabled == *disable_v4,
            r.v4_suffix == *v4_suffix,
            r.v6_disabled == *disable_v6,
            r.v6_suffix == *v6_suffix,
    {
        DomainRegistration {
            domain: domain.clone(),
            v4_disabled: *disable_v4,
            v4_suffix: clone_opt_string(v4_suffix),
            v6_disabled: *disable_v6,
            v6_suffix: clone_opt_string(v6_suffix),
        }
    }

    /// An owned copy, equal to the original.
    pub fn duplicate(&self) -> (r: DomainRegistration)
        ensures
            r == *self,
    {
        DomainRegistration {
            domain: self.domain.clone(),
            v4_disabled: self.v4_disabled,
            v4_suffix: clone_opt_string(&self.v4_suffix),
            v6_disabled: self.v6_disabled,
            v6_suffix: clone_opt_string(&self.v6_suffix),
        }
    }
}

/// Whether some registration in the list carries this domain name.
pub open spec fn has_domain(s: Seq<DomainRegistration>, d: Seq<char>) -> bool {
    exists|i: int| 0 <= i < s.len() && (#[trigger] s[i]).domain@ == d
}

/// Appends a registration unless its domain is already registered; says
/// whether it was added.
pub fn register_domain(
    domains: &mut Vec<DomainRegistration>,
    registration: DomainRegistration,
) -> (added: bool)
    ensures
        added == !has_domain(old(domains)@, registration.domain@),
        added ==> final(domains)@ == old(domains)@.push(registration),
        !added ==> final(domains)@ == old(domains)@,
{
    let mut i: usize = 0;
    while i < domains.len()
        invariant
            i <= domains.len(),
            forall|j: int| 0 <= j < i ==> (#[trigger] domains@[j]).domain@
                != registration.domain@,
        decreases domains.len() - i,
    {
        if domains[i].domain == registration.domain {
            return false;
        }
        i += 1;
    }
    domains.push(registration);
    true
}

/// The list with every registration of this domain removed, order kept.
pub open spec fn without_domain(s: Seq<DomainRegistration>, d: Seq<char>) -> Seq<
    DomainRegistration,
>
    decreases s.len(),
{
    if s.len() == 0 {
        s
    } else if s[0].domain@ == d {
        without_domain(s.drop_first(), d)
    } else {
        seq![s[0]] + without_domain(s.drop_first(), d)
    }
}

/// Removing a domain shortens the list exactly when the domain was there.
pub proof fn lemma_without_domain_len(s: Seq<DomainRegistration>, d: Seq<char>)
    ensures
        without_domain(s, d).len() <= s.len(),
        has_domain(s, d) ==> without_domain(s, d).len() < s.len(),
        !has_domain(s, d) ==> without_domain(s, d) == s,
    decreases s.len(),
{
    if s.len() == 0 {
    } else {
        let rest = s.drop_first();
        lemma_without_domain_len(rest, d);
        if s[0].domain@ == d {
            assert(has_domain(s, d));
        } else {
            if has_domain(s, d) {
                let i = choose|i: int| 0 <= i < s.len() && (#[trigger] s[i]).domain@ == d;
                assert(rest[i - 1] == s[i]);
                assert(has_domain(rest, d));
            }
            if !has_domain(rest, d) {
                assert(!has_domain(s, d)) by {
                    if has_domain(s, d) {
                        let i = choose|i: int|
                            0 <= i < s.len() && (#[trigger] s[i]).domain@ == d;
                        assert(i > 0);
                        assert(rest[i - 1] == s[i]);
                    }
                }
                assert(seq![s[0]] + rest =~= s);
            }
        }
    }
}

/// Removes every registration of this domain; says whether any was there.
pub fn delete_domain(domains: &mut Vec<DomainRegistration>, domain: &str) -> (removed: bool)
    ensures
        final(domains)@ == without_domain(old(domains)@, domain@),
        removed == has_domain(old(domains)@, domain@),
{
    let domain_owned = domain.to_owned();
    let ghost all = domains@;
    let mut kept: Vec<DomainRegistration> = Vec::new();
    let mut i: usize = 0;
    proof {
        assert(all.skip(0) =~= all);
        assert(kept@ + without_domain(all, domain@) =~= without_domain(all, domain@));
    }
    while i < domains.len()
        invariant
            i <= domains.len(),
            all == domains@,
            domain_owned@ == domain@,
            without_domain(all, domain@) == kept@ + without_domain(all.skip(i as int), domain@),
            kept@.len() <= i,
        decreases domains.len() - i,
    {
        let ghost rest = all.skip(i as int);
        proof {
            assert(rest[0] == all[i as int]);
            assert(rest.drop_first() =~= all.skip(i + 1));
        }
        if !(domains[i].domain == domain_owned) {
            let ghost before = kept@;
            kept.push(domains[i].duplicate());
            proof {
                assert(kept@ =~= before.push(all[i as int]));
                assert(before + (seq![rest[0]] + without_domain(rest.drop_first(), domain@))
                    =~= kept@ + without_domain(all.skip(i + 1), domain@));
            }
        }
        i += 1;
    }
    proof {
        assert(all.skip(domains.len() as int) =~= Seq::<DomainRegistration>::empty());
        assert(kept@ + Seq::<DomainRegistration>::empty() =~= kept@);
        lemma_without_domain_len(all, domain@);
    }
    let removed = kept.len() != domains.len();
    *domains = kept;
    removed
}

/// The content a v4 record should carry: the discovered address, with the
/// registration's suffix replacing its trailing parts when one is set; a
/// suffix with more parts than the address has is refused.
pub fn desired_content_v4(address: &String, suffix: &Option<String>) -> (r: Result<String, Error>)
    ensures
        match suffix.deep_view() {
            Some(sfx) => {
                if split(sfx, '.').len() <= split(address@, '.').len() {
                    r matches Ok(v) && v@ == replace_tail(address@, sfx, '.')
                } else {
                    r == Err::<String, Error>(Error::Validation)
                }
            },
            None => r matches Ok(v) && v@ == address@,
        },
{
    match suffix {
        Some(sfx) => {
            let aparts = split_str(address.as_str(), '.');
            let sparts = split_str(sfx.as_str(), '.');
            proof {
                assert(aparts.deep_view().len() == aparts.len());
                assert(sparts.deep_view().len() == sparts.len());
            }
            if sparts.len() <= aparts.len() {
                Ok(replace_ipv4_suffix(address.as_str(), sfx.as_str()))
            } else {
                Err(Error::Validation)
            }
        },
        None => Ok(address.clone()),
    }
}

/// The content a v6 record should carry: the discovered address, expanded
/// and with the registration's suffix replacing its trailing groups when
/// one is set; a malformed combination is refused.
pub fn desired_content_v6(address: &String, suffix: &Option<String>) -> (r: Result<String, Error>)
    ensures
        match suffix.deep_view() {
            Some(sfx) => match replace_ipv6_spec(address@, sfx) {
                Some(out) => r matches Ok(v) && v@ == out,
                None => r == Err::<String, Error>(Error::Validation),
            },
            None => r matches Ok(v) && v@ == address@,
        },
{
    match suffix {
        Some(sfx) => replace_ipv6_suffix(address.as_str(), sfx.as_str()),
        None => Ok(address.clone()),
    }
}

/// Whether a record must be written: its current content differs from the
/// desired one, or the run is forced.
pub fn needs_update(current: &String, desired: &String, force: bool) -> (r: bool)
    ensures
        r == (current@ != desired@ || force),
{
    !(*current == *desired) || force
}

/// The run-level fast path: both freshly discovered addresses equal the
/// last observed ones, the run is not forced, and less than the staleness
/// window of twelve hours has passed since the last recorded update.
pub open spec fn spec_should_skip(
    entries: Map<Seq<char>, Seq<char>>,
    current_v4: Seq<char>,
    current_v6: Seq<char>,
    force: bool,
    now: u64,
) -> bool {
    &&& entries.contains_key("last_ipv4"@) && entries["last_ipv4"@] == current_v4
    &&& entries.contains_key("last_ipv6"@) && entries["last_ipv6"@] == current_v6
    &&& !force
    &&& {
        let last = if entries.contains_key("last_update"@) {
            match spec_parse_u64(entries["last_update"@]) {
                Some(v) => v as int,
                None => 0,
            }
        } else {
            0
        };
        last + 43200 > now
    }
}

/// Decides the run-level fast path from the configured last-seen state.
pub fn should_skip_run(
    config: &Config,
    current_v4: &String,
    current_v6: &String,
    force: bool,
    now: u64,
) -> (r: bool)
    ensures
        r == spec_should_skip(config@.entries, current_v4@, current_v6@, force, now),
{
    let v4_same = match config.read_config_entry("last_ipv4") {
        Some(v) => *v == *current_v4,
        None => false,
    };
    let v6_same = match config.read_config_entry("last_ipv6") {
        Some(v) => *v == *current_v6,
        None => false,
    };
    if !(v4_same && v6_same) || force {
        return false;
    }
    let last: u64 = match config.read_config_entry("last_update") {
        Some(v) => match parse_u64(v.as_str()) {
            Some(t) => t,
            None => 0,
        },
        None => 0,
    };
    last >= now || now - last < 43200
}

/// The text shown for one address family of a listed registration.
pub fn suffix_display(disabled: bool, suffix: &Option<String>) -> (r: String)
    ensures
        r@ == if disabled {
            "Disabled"@
        } else {
            match suffix.deep_view() {
                Some(s) => s,
                None => "Default"@,
            }
        },
{
    if disabled {
        "Disabled".to_owned()
    } else {
        match suffix {
            Some(s) => s.clone(),
            None => "Default".to_owned(),
        }
    }
}

} // verus!
