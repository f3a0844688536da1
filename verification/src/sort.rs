//! The ordering of networks, and a stable sort by that ordering.
//!
//! Networks are ordered by family (IPv4 first unless `ipv6_first`), then by
//! network address numerically, then by prefix length (shorter first). With
//! `reverse` the whole order is inverted.

use crate::parse::Net;
use std::cmp::Ordering;
use vstd::prelude::*;

verus! {

/// Runtime options that affect how IP addresses are ordered.
#[derive(Clone, Copy, Debug, PartialEq, Eq, Structural)]
pub struct SortOptions {
    /// When `true`, IPv6 addresses sort before IPv4 addresses.
    pub ipv6_first: bool,
    /// When `true`, the order is reversed.
    pub reverse: bool,
}

impl Default for SortOptions {
    fn default() -> (r: Self)
        ensures
            !r.ipv6_first,
            !r.reverse,
    {
        SortOptions { ipv6_first: false, reverse: false }
    }
}

/// The options that `SortOptions::default()` gives: IPv4 first, ascending.
pub open spec fn default_sort_options() -> SortOptions {
    SortOptions { ipv6_first: false, reverse: false }
}

/// `a` and `b` agree on everything the order looks at: family, network
/// address and prefix length.
pub open spec fn same_key(a: Net, b: Net) -> bool {
    a.is_v6 == b.is_v6 && a.network_addr() == b.network_addr() && a.prefix_len == b.prefix_len
}

/// `a` sorts strictly before `b` in ascending order: by family, then network
/// address, then prefix length.
pub open spec fn ascending_before(a: Net, b: Net, ipv6_first: bool) -> bool {
    if a.is_v6 != b.is_v6 {
        if ipv6_first {
            a.is_v6
        } else {
            !a.is_v6
        }
    } else if a.network_addr() != b.network_addr() {
        a.network_addr() < b.network_addr()
    } else {
        a.prefix_len < b.prefix_len
    }
}

/// `a` sorts strictly before `b` under `opts`.
pub open spec fn before(a: Net, b: Net, opts: SortOptions) -> bool {
    if opts.reverse {
        ascending_before(b, a, opts.ipv6_first)
    } else {
        ascending_before(a, b, opts.ipv6_first)
    }
}

/// The order is a strict total order on keys: irreflexive, asymmetric,
/// transitive, and any two networks are ordered one way or the other unless
/// they have the same key; networks with the same key are ordered alike.
pub proof fn lemma_before_strict_total_order(a: Net, b: Net, c: Net, opts: SortOptions)
    ensures
        !before(a, a, opts),
        before(a, b, opts) ==> !before(b, a, opts),
        before(a, b, opts) && before(b, c, opts) ==> before(a, c, opts),
        before(a, b, opts) || before(b, a, opts) || same_key(a, b),
        same_key(a, b) ==> !before(a, b, opts) && (before(a, c, opts) == before(b, c, opts)) && (
        before(c, a, opts) == before(c, b, opts)),
{
}

/// Reversing the order swaps its arguments.
pub proof fn lemma_reverse_flips(a: Net, b: Net, ipv6_first: bool)
    ensures
        before(a, b, SortOptions { ipv6_first, reverse: true }) == before(
            b,
            a,
            SortOptions { ipv6_first, reverse: false },
        ),
{
}

/// `ipv6_first` only decides between the families: within one family the
/// order is the same either way.
pub proof fn lemma_ipv6_first_within_family(a: Net, b: Net, reverse: bool)
    requires
        a.is_v6 == b.is_v6,
    ensures
        before(a, b, SortOptions { ipv6_first: true, reverse }) == before(
            a,
            b,
            SortOptions { ipv6_first: false, reverse },
        ),
{
}

/// Compares two networks according to `opts`: family first (IPv4 first
/// unless `ipv6_first`), then network address, then prefix length; the
/// result is inverted when `opts.reverse` is set.
pub fn compare(a: &Net, b: &Net, opts: &SortOptions) -> (r: Ordering)
    requires
        a.wf(),
        b.wf(),
    ensures
        (r == Ordering::Less) == before(*a, *b, *opts),
        (r == Ordering::Greater) == before(*b, *a, *opts),
        (r == Ordering::Equal) == same_key(*a, *b),
{
    let ascending = if a.is_v6 != b.is_v6 {
        if opts.ipv6_first == a.is_v6 {
            Ordering::Less
        } else {
            Ordering::Greater
        }
    } else {
        let na = a.network();
        let nb = b.network();
        if na < nb {
            Ordering::Less
        } else if na > nb {
            Ordering::Greater
        } else if a.prefix_len < b.prefix_len {
            Ordering::Less
        } else if a.prefix_len > b.prefix_len {
            Ordering::Greater
        } else {
            Ordering::Equal
        }
    };
    if opts.reverse {
        match ascending {
            Ordering::Less => Ordering::Greater,
            Ordering::Greater => Ordering::Less,
            Ordering::Equal => Ordering::Equal,
        }
    } else {
        ascending
    }
}

/// Whether `a` sorts strictly before `b` under `opts`.
pub fn precedes(a: &Net, b: &Net, opts: &SortOptions) -> (r: bool)
    requires
        a.wf(),
        b.wf(),
    ensures
        r == before(*a, *b, *opts),
{
    match compare(a, b, opts) {
        Ordering::Less => true,
        _ => false,
    }
}

} // verus!
