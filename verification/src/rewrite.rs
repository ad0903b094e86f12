//! Address-suffix rewriting: a partial "suffix" override replaces the
//! trailing octets of an IPv4 address or the trailing groups of an IPv6
//! address, which is first expanded at its `::` marker if it has one.

use vstd::prelude::*;

use crate::error::Error;
use crate::strutil::{
    index_of_pair, join, join_strs, lemma_split_pair_contains, split, split_pair, split_pair_str,
    split_str,
};

verus! {

/// The address with the trailing parts replaced by the suffix's parts: of
/// the address's parts between separators, the last `n` are dropped, where
/// `n` is the number of parts of the suffix, and the suffix's parts stand in
/// their place.
pub open spec fn replace_tail(addr: Seq<char>, suffix: Seq<char>, sep: char) -> Seq<char> {
    let parts = split(addr, sep);
    let sparts = split(suffix, sep);
    join(parts.take(parts.len() - sparts.len()) + sparts, sep)
}

fn replace_tail_str(addr: &str, suffix: &str, sep: char, sep_str: &str) -> (r: String)
    requires
        split(suffix@, sep).len() <= split(addr@, sep).len(),
        sep_str@.len() == 1,
        sep_str@[0] == sep,
    ensures
        r@ == replace_tail(addr@, suffix@, sep),
{
    let mut parts = split_str(addr, sep);
    let sparts = split_str(suffix, sep);
    proof {
        assert(parts.deep_view().len() == parts.len());
        assert(sparts.deep_view().len() == sparts.len());
    }
    let keep = parts.len() - sparts.len();
    let ghost whole = parts.deep_view();
    parts.truncate(keep);
    proof {
        assert(parts.deep_view() =~= whole.take(keep as int));
    }
    let ghost base = parts.deep_view();
    let mut k: usize = 0;
    while k < sparts.len()
        invariant
            k <= sparts.len(),
            parts.deep_view() == base + sparts.deep_view().take(k as int),
            parts.len() == keep + k,
        decreases sparts.len() - k,
    {
        let ghost prev = parts.deep_view();
        parts.push(sparts[k].clone());
        proof {
            assert(parts.deep_view() =~= prev.push(sparts.deep_view()[k as int]));
            assert(parts.deep_view() =~= base + sparts.deep_view().take(k + 1));
        }
        k += 1;
    }
    proof {
        assert(sparts.deep_view().take(sparts.len() as int) =~= sparts.deep_view());
    }
    join_strs(&parts, sep_str)
}

/// IPv4 rewriting: the last parts of the dotted address, as many as the
/// suffix has, are replaced by the suffix's parts. Parts are taken as they
/// stand; nothing checks that they are numeric octets.
pub fn replace_ipv4_suffix(ip: &str, suffix: &str) -> (r: String)
    requires
        split(suffix@, '.').len() <= split(ip@, '.').len(),
    ensures
        r@ == replace_tail(ip@, suffix@, '.'),
{
    proof {
        reveal_strlit(".");
        assert("."@ =~= seq!['.']);
    }
    replace_tail_str(ip, suffix, '.', ".")
}

/// Four zeros, the group inserted for each one elided by `::`.
pub open spec fn zero_group() -> Seq<char> {
    seq!['0', '0', '0', '0']
}

/// The fully expanded form of an IPv6 address: if the address holds the `::`
/// marker, the groups left of the first marker and the groups right of it
/// (up to the next marker, if any) are kept, and enough `0000` groups stand
/// between them to make eight; `None` when the two sides already hold eight
/// or more groups, since the marker must stand for at least one elided
/// group. An address without the marker is left as it is.
pub open spec fn expand_ipv6_spec(s: Seq<char>) -> Option<Seq<char>> {
    if index_of_pair(s, ':') < 0 {
        Some(s)
    } else {
        let lp = split(split_pair(s, ':')[0], ':');
        let rp = split(split_pair(s, ':')[1], ':');
        if lp.len() + rp.len() >= 8 {
            None
        } else {
            Some(
                join(lp + Seq::new((8 - lp.len() - rp.len()) as nat, |k: int| zero_group()) + rp, ':'),
            )
        }
    }
}

/// Expands the `::` marker of an IPv6 address into explicit `0000` groups.
/// Groups keep whatever literal width they already have; only the elided
/// ones are written as `0000`.
pub fn expand_ipv6(ip: &str) -> (r: Result<String, Error>)
    ensures
        match r {
            Ok(v) => expand_ipv6_spec(ip@) == Some(v@),
            Err(e) => expand_ipv6_spec(ip@) is None && e == Error::Validation,
        },
{
    let parts2 = split_pair_str(ip, ':');
    proof {
        lemma_split_pair_contains(ip@, ':');
        assert(parts2.deep_view().len() == parts2.len());
    }
    if parts2.len() >= 2 {
        let lp = split_str(parts2[0].as_str(), ':');
        let rp = split_str(parts2[1].as_str(), ':');
        proof {
            assert(lp.deep_view().len() == lp.len());
            assert(rp.deep_view().len() == rp.len());
        }
        if lp.len() >= 8 || rp.len() >= 8 - lp.len() {
            return Err(Error::Validation);
        }
        let missing = 8 - lp.len() - rp.len();
        let ghost lp_dv = lp.deep_view();
        let ghost rp_dv = rp.deep_view();
        let mut groups = lp;
        let mut z: usize = 0;
        proof {
            assert(groups.deep_view() =~= lp_dv + Seq::new(0, |k: int| zero_group()));
        }
        while z < missing
            invariant
                z <= missing,
                groups.deep_view() == lp_dv + Seq::new(z as nat, |k: int| zero_group()),
            decreases missing - z,
        {
            let ghost prev = groups.deep_view();
            groups.push("0000".to_owned());
            proof {
                reveal_strlit("0000");
                assert("0000"@ =~= zero_group());
                assert(groups.deep_view() =~= prev.push(zero_group()));
                assert(groups.deep_view() =~= lp_dv + Seq::new((z + 1) as nat, |k: int| zero_group()));
            }
            z += 1;
        }
        let ghost zeros = Seq::new(missing as nat, |k: int| zero_group());
        let mut k: usize = 0;
        while k < rp.len()
            invariant
                k <= rp.len(),
                rp.deep_view() == rp_dv,
                rp.len() == rp_dv.len(),
                groups.deep_view() == lp_dv + zeros + rp_dv.take(k as int),
                groups.len() >= 1,
            decreases rp.len() - k,
        {
            let ghost prev = groups.deep_view();
            groups.push(rp[k].clone());
            proof {
                assert(groups.deep_view() =~= prev.push(rp_dv[k as int]));
                assert(groups.deep_view() =~= lp_dv + zeros + rp_dv.take(k + 1));
            }
            k += 1;
        }
        proof {
            reveal_strlit(":");
            assert(":"@ =~= seq![':']);
            assert(rp_dv.take(rp_dv.len() as int) =~= rp_dv);
            assert(lp_dv == split(split_pair(ip@, ':')[0], ':'));
            assert(rp_dv == split(split_pair(ip@, ':')[1], ':'));
        }
        Ok(join_strs(&groups, ":"))
    } else {
        Ok(ip.to_owned())
    }
}

/// What IPv6 rewriting yields: the expanded address with its trailing
/// groups replaced by the suffix's groups, or nothing where expansion fails
/// or the suffix has more groups than the expanded address.
pub open spec fn replace_ipv6_spec(ip: Seq<char>, suffix: Seq<char>) -> Option<Seq<char>> {
    match expand_ipv6_spec(ip) {
        None => None,
        Some(e) => if split(suffix, ':').len() > split(e, ':').len() {
            None
        } else {
            Some(replace_tail(e, suffix, ':'))
        },
    }
}

/// IPv6 rewriting: the address is expanded at its `::` marker, then the last
/// groups, as many as the suffix has, are replaced by the suffix's groups.
/// A malformed combination is refused instead of being rewritten.
pub fn replace_ipv6_suffix(ip: &str, suffix: &str) -> (r: Result<String, Error>)
    ensures
        match r {
            Ok(v) => replace_ipv6_spec(ip@, suffix@) == Some(v@),
            Err(e) => replace_ipv6_spec(ip@, suffix@) is None && e == Error::Validation,
        },
{
    let expanded = match expand_ipv6(ip) {
        Ok(v) => v,
        Err(e) => {
            return Err(e);
        },
    };
    let eparts = split_str(expanded.as_str(), ':');
    let sparts = split_str(suffix, ':');
    proof {
        assert(eparts.deep_view().len() == eparts.len());
        assert(sparts.deep_view().len() == sparts.len());
    }
    if sparts.len() > eparts.len() {
        return Err(Error::Validation);
    }
    proof {
        reveal_strlit(":");
        assert(":"@ =~= seq![':']);
    }
    Ok(replace_tail_str(expanded.as_str(), suffix, ':', ":"))
}

} // verus!
