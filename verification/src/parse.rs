//! Token-level CIDR parsing and normalization.

use vstd::prelude::*;

verus! {

/// Whether `c` may appear inside a CIDR or IP address: `[0-9a-fA-F.:/]`.
pub open spec fn cidr_char(c: char) -> bool {
    ||| ('0' <= c && c <= '9')
    ||| ('a' <= c && c <= 'f')
    ||| ('A' <= c && c <= 'F')
    ||| c == '.'
    ||| c == ':'
    ||| c == '/'
}

/// Returns `true` if a character can appear inside a valid CIDR or IP address.
pub fn is_cidr_char(c: char) -> (r: bool)
    ensures
        r == cidr_char(c),
{
    ('0' <= c && c <= '9') || ('a' <= c && c <= 'f') || ('A' <= c && c <= 'F') || c == '.'
        || c == ':' || c == '/'
}

/// `s` with its leading non-CIDR characters removed.
pub open spec fn trim_start(s: Seq<char>) -> Seq<char>
    decreases s.len(),
{
    if s.len() > 0 && !cidr_char(s[0]) {
        trim_start(s.drop_first())
    } else {
        s
    }
}

/// `s` with its trailing non-CIDR characters removed.
pub open spec fn trim_end(s: Seq<char>) -> Seq<char>
    decreases s.len(),
{
    if s.len() > 0 && !cidr_char(s.last()) {
        trim_end(s.drop_last())
    } else {
        s
    }
}

/// `s` with non-CIDR characters removed from both ends.
pub open spec fn stripped(s: Seq<char>) -> Seq<char> {
    trim_end(trim_start(s))
}

proof fn lemma_trim_start_at(s: Seq<char>, i: int)
    requires
        0 <= i <= s.len(),
        forall|k: int| 0 <= k < i ==> !cidr_char(#[trigger] s[k]),
        i == s.len() || cidr_char(s[i]),
    ensures
        trim_start(s) == s.skip(i),
    decreases i,
{
    if i == 0 {
        assert(s.skip(0) =~= s);
    } else {
        let t = s.drop_first();
        assert forall|k: int| 0 <= k < i - 1 implies !cidr_char(#[trigger] t[k]) by {
            assert(t[k] == s[k + 1]);
        }
        lemma_trim_start_at(t, i - 1);
        assert(t.skip(i - 1) =~= s.skip(i));
    }
}

proof fn lemma_trim_end_at(s: Seq<char>, j: int)
    requires
        0 <= j <= s.len(),
        forall|k: int| j <= k < s.len() ==> !cidr_char(#[trigger] s[k]),
        j == 0 || cidr_char(s[j - 1]),
    ensures
        trim_end(s) == s.take(j),
    decreases s.len() - j,
{
    if j == s.len() {
        assert(s.take(j) =~= s);
    } else {
        let t = s.drop_last();
        assert forall|k: int| j <= k < t.len() implies !cidr_char(#[trigger] t[k]) by {
            assert(t[k] == s[k]);
        }
        lemma_trim_end_at(t, j);
        assert(t.take(j) =~= s.take(j));
    }
}

/// A text of CIDR characters only is left as it is by stripping.
pub proof fn lemma_stripped_cidr_text(s: Seq<char>)
    requires
        forall|j: int| 0 <= j < s.len() ==> cidr_char(#[trigger] s[j]),
    ensures
        stripped(s) == s,
{
    lemma_trim_start_at(s, 0);
    assert(s.skip(0) =~= s);
    lemma_trim_end_at(s, s.len() as int);
    assert(s.take(s.len() as int) =~= s);
}

/// Strip leading and trailing characters that are not CIDR characters from
/// both ends of a token; characters in the middle are left alone.
pub fn strip_cidr_punctuation(s: &str) -> (r: &str)
    ensures
        r@ == stripped(s@),
{
    let n = s.unicode_len();
    let mut i: usize = 0;
    while i < n && !is_cidr_char(s.get_char(i))
        invariant
            n == s@.len(),
            i <= n,
            forall|k: int| 0 <= k < i ==> !cidr_char(#[trigger] s@[k]),
        decreases n - i,
    {
        i = i + 1;
    }
    let mut j: usize = n;
    while j > i && !is_cidr_char(s.get_char(j - 1))
        invariant
            n == s@.len(),
            i <= j <= n,
            forall|k: int| j <= k < n ==> !cidr_char(#[trigger] s@[k]),
        decreases j,
    {
        j = j - 1;
    }
    proof {
        lemma_trim_start_at(s@, i as int);
        let t = s@.skip(i as int);
        assert forall|k: int| j - i <= k < t.len() implies !cidr_char(#[trigger] t[k]) by {
            assert(t[k] == s@[k + i]);
        }
        if j > i {
            assert(t[j - i - 1] == s@[j - 1]);
        }
        lemma_trim_end_at(t, j - i);
        assert(t.take(j - i) =~= s@.subrange(i as int, j as int));
    }
    s.substring_char(i, j)
}


/// A network: an address family, an address and a prefix length.
///
/// For IPv4 the address occupies the low 32 bits of `addr`.
#[derive(Clone, Copy, Debug, PartialEq, Eq, Structural, Hash)]
pub struct Net {
    pub is_v6: bool,
    pub addr: u128,
    pub prefix_len: u8,
}

impl Net {
    /// The prefix length fits the family, and an IPv4 address fits 32 bits.
    pub open spec fn wf(self) -> bool {
        if self.is_v6 {
            self.prefix_len <= 128
        } else {
            self.prefix_len <= 32 && self.addr <= 0xffff_ffff
        }
    }

    /// The netmask: `prefix_len` leading one bits within the family's width.
    pub open spec fn mask(self) -> u128 {
        if self.prefix_len == 0 {
            0
        } else if self.is_v6 {
            u128::MAX << ((128 - self.prefix_len) as u32)
        } else {
            (0xffff_ffffu32 << ((32 - self.prefix_len) as u32)) as u128
        }
    }

    /// The network address: the address with its host bits cleared.
    pub open spec fn network_addr(self) -> u128 {
        self.addr & self.mask()
    }

    /// The same network with its host bits cleared.
    pub open spec fn truncated(self) -> Net {
        Net { is_v6: self.is_v6, addr: self.network_addr(), prefix_len: self.prefix_len }
    }

    /// The netmask of this network.
    pub fn netmask(&self) -> (r: u128)
        requires
            self.wf(),
        ensures
            r == self.mask(),
    {
        if self.prefix_len == 0 {
            0
        } else if self.is_v6 {
            u128::MAX << (128u32 - self.prefix_len as u32)
        } else {
            (0xffff_ffffu32 << (32u32 - self.prefix_len as u32)) as u128
        }
    }

    /// The network address of this network (host bits cleared).
    pub fn network(&self) -> (r: u128)
        requires
            self.wf(),
        ensures
            r == self.network_addr(),
    {
        self.addr & self.netmask()
    }

    /// The same network with its host bits cleared.
    pub fn trunc(&self) -> (r: Net)
        requires
            self.wf(),
        ensures
            r == self.truncated(),
            r.wf(),
    {
        let a = self.addr;
        let m = self.netmask();
        assert(a & m <= a) by (bit_vector);
        Net { is_v6: self.is_v6, addr: a & m, prefix_len: self.prefix_len }
    }
}

/// What `ipnet`'s `IpNet::from_str` gives for a text: the network it parses,
/// or `None` where it reports an error.
pub uninterp spec fn ipnet_from_str(s: Seq<char>) -> Option<Net>;

/// What `ipnet`'s `Display` for `IpNet` writes for a network.
pub uninterp spec fn ipnet_text(n: Net) -> Seq<char>;

/// What `ipnet` is trusted to do with a well-formed network `n` (see
/// `ipnet_to_string`): write it as a non-empty text of CIDR characters that
/// it parses back to `n`.
pub open spec fn ipnet_writes_back(n: Net) -> bool {
    &&& n.wf()
    &&& ipnet_text(n).len() > 0
    &&& forall|j: int| 0 <= j < ipnet_text(n).len() ==> cidr_char(#[trigger] ipnet_text(n)[j])
    &&& ipnet_from_str(ipnet_text(n)) == Some(n)
}

/// What `{:?}` (std's `Debug` for `str`) writes for a text.
pub uninterp spec fn debug_text(s: Seq<char>) -> Seq<char>;

/// Parses `s` with `ipnet::IpNet::from_str`. The contract claims that the
/// result is a function of the text alone, and that a parsed network has a
/// prefix length within its family's width (the parser reads at most 32 for
/// IPv4 and 128 for IPv6, and the IPv4 address converts to a `u32`).
#[verifier::external_body]
fn parse_ipnet(s: &str) -> (r: Option<Net>)
    ensures
        r == ipnet_from_str(s@),
        r matches Some(n) ==> n.wf(),
{
    match s.parse::<ipnet::IpNet>() {
        Ok(ipnet::IpNet::V4(n)) => Some(
            Net { is_v6: false, addr: u32::from(n.addr()) as u128, prefix_len: n.prefix_len() },
        ),
        Ok(ipnet::IpNet::V6(n)) => Some(
            Net { is_v6: true, addr: u128::from(n.addr()), prefix_len: n.prefix_len() },
        ),
        Err(_) => None,
    }
}

/// Writes a network with `ipnet`'s `Display` (via `to_string`) after
/// converting it to `ipnet::IpNet` with `Ipv4Net::new` / `Ipv6Net::new`,
/// which accept every prefix length within the family's width. The contract
/// claims that the text is a function of the network; that it is not empty
/// and made of CIDR characters only (`Display` writes the address as std
/// does, dotted decimal or lowercase hexadecimal groups with `':'` and an
/// embedded dotted tail, then `'/'` and the decimal prefix length); and that
/// `ipnet`'s `FromStr` parses it back to the same network (address and
/// prefix length as written).
#[verifier::external_body]
pub(crate) fn ipnet_to_string(n: Net) -> (r: String)
    requires
        n.wf(),
    ensures
        r@ == ipnet_text(n),
        r@.len() > 0,
        forall|j: int| 0 <= j < r@.len() ==> cidr_char(#[trigger] r@[j]),
        ipnet_from_str(r@) == Some(n),
{
    let net = match n.is_v6 {
        false => ipnet::IpNet::V4(ipnet::Ipv4Net::new((n.addr as u32).into(), n.prefix_len).unwrap()),
        true => ipnet::IpNet::V6(ipnet::Ipv6Net::new(n.addr.into(), n.prefix_len).unwrap()),
    };
    net.to_string()
}

impl Net {
    /// Whether the network is well formed: a prefix length within its
    /// family's width, and an IPv4 address of 32 bits.
    pub fn is_wf(&self) -> (r: bool)
        ensures
            r == self.wf(),
    {
        if self.is_v6 {
            self.prefix_len <= 128
        } else {
            self.prefix_len <= 32 && self.addr <= 0xffff_ffff
        }
    }

    /// The network as `ipnet` writes it: the address, a slash and the
    /// prefix length.
    pub fn to_string(&self) -> (r: String)
        requires
            self.wf(),
        ensures
            r@ == ipnet_text(*self),
            ipnet_writes_back(*self),
    {
        ipnet_to_string(*self)
    }
}

/// Writes a text with std's `Debug` for `str` (`format!("{:?}")`): quoted
/// and escaped. The contract claims only that the result is a function of
/// the text.
#[verifier::external_body]
pub(crate) fn debug_quote(s: &str) -> (r: String)
    ensures
        r@ == debug_text(s@),
{
    format!("{s:?}")
}


/// The result of attempting to parse a single token as a CIDR or IP address.
#[derive(Clone, Debug, PartialEq)]
pub enum ParsedToken {
    /// A valid CIDR block; `network` has its host bits cleared, and
    /// `had_host_bits` tells whether the original text had host bits set.
    ValidCidr { original: String, network: Net, had_host_bits: bool },
    /// A bare IP address, promoted to /32 (IPv4) or /128 (IPv6).
    BareIp { original: String, network: Net },
    /// A token that is not an IP address or CIDR, kept for passthrough.
    NotAnIp(String),
}

/// The mathematical value of a [`ParsedToken`]: texts as character sequences.
pub enum TokenView {
    ValidCidr { original: Seq<char>, network: Net, had_host_bits: bool },
    BareIp { original: Seq<char>, network: Net },
    NotAnIp(Seq<char>),
}

impl TokenView {
    pub open spec fn network(self) -> Option<Net> {
        match self {
            TokenView::ValidCidr { network, .. } => Some(network),
            TokenView::BareIp { network, .. } => Some(network),
            TokenView::NotAnIp(_) => None,
        }
    }

    pub open spec fn original(self) -> Seq<char> {
        match self {
            TokenView::ValidCidr { original, .. } => original,
            TokenView::BareIp { original, .. } => original,
            TokenView::NotAnIp(s) => s,
        }
    }

    pub open spec fn is_ip(self) -> bool {
        !(self is NotAnIp)
    }

    /// Every network a token carries is well formed.
    pub open spec fn wf(self) -> bool {
        self.network() matches Some(n) ==> n.wf()
    }
}

impl View for ParsedToken {
    type V = TokenView;

    open spec fn view(&self) -> TokenView {
        match self {
            ParsedToken::ValidCidr { original, network, had_host_bits } => TokenView::ValidCidr {
                original: original@,
                network: *network,
                had_host_bits: *had_host_bits,
            },
            ParsedToken::BareIp { original, network } => TokenView::BareIp {
                original: original@,
                network: *network,
            },
            ParsedToken::NotAnIp(s) => TokenView::NotAnIp(s@),
        }
    }
}

impl ParsedToken {
    /// Returns the normalized network if this token is a valid address, or
    /// `None` if it is not an IP.
    pub fn network(&self) -> (r: Option<Net>)
        ensures
            r == self@.network(),
    {
        match self {
            ParsedToken::ValidCidr { network, .. } => Some(*network),
            ParsedToken::BareIp { network, .. } => Some(*network),
            ParsedToken::NotAnIp(_) => None,
        }
    }

    /// Returns the original string as provided (before any normalization).
    pub fn original(&self) -> (r: &str)
        ensures
            r@ == self@.original(),
    {
        match self {
            ParsedToken::ValidCidr { original, .. } => original.as_str(),
            ParsedToken::BareIp { original, .. } => original.as_str(),
            ParsedToken::NotAnIp(s) => s.as_str(),
        }
    }

    /// Returns `true` if this token is a recognizable IP address or CIDR.
    pub fn is_ip(&self) -> (r: bool)
        ensures
            r == self@.is_ip(),
    {
        match self {
            ParsedToken::NotAnIp(_) => false,
            _ => true,
        }
    }

    /// A copy of this token with the same value.
    pub fn duplicate(&self) -> (r: ParsedToken)
        ensures
            r@ == self@,
    {
        match self {
            ParsedToken::ValidCidr { original, network, had_host_bits } => ParsedToken::ValidCidr {
                original: original.clone(),
                network: *network,
                had_host_bits: *had_host_bits,
            },
            ParsedToken::BareIp { original, network } => ParsedToken::BareIp {
                original: original.clone(),
                network: *network,
            },
            ParsedToken::NotAnIp(s) => ParsedToken::NotAnIp(s.clone()),
        }
    }
}

/// The token for `original`, given what parsing its stripped text as a CIDR
/// gave (`cidr`) and what parsing it as a bare address gave (`bare`).
pub open spec fn token_of(original: Seq<char>, cidr: Option<Net>, bare: Option<Net>) -> TokenView {
    match cidr {
        Some(n) => TokenView::ValidCidr {
            original,
            network: n.truncated(),
            had_host_bits: n.addr != n.network_addr(),
        },
        None => match bare {
            Some(b) => TokenView::BareIp { original, network: b },
            None => TokenView::NotAnIp(original),
        },
    }
}

/// Builds the token for `original` from the result of parsing its stripped
/// text as a CIDR (`cidr`) and as a bare address (`bare`): a CIDR wins, with
/// its host bits cleared; then a bare address; else the token is not an IP.
pub fn token_from_parses(original: &str, cidr: Option<Net>, bare: Option<Net>) -> (r: ParsedToken)
    requires
        cidr matches Some(n) ==> n.wf(),
    ensures
        r@ == token_of(original@, cidr, bare),
        (bare matches Some(b) ==> b.wf()) ==> r@.wf(),
{
    match cidr {
        Some(n) => {
            let network = n.trunc();
            ParsedToken::ValidCidr {
                original: original.to_owned(),
                network,
                had_host_bits: n.addr != network.addr,
            }
        },
        None => match bare {
            Some(b) => ParsedToken::BareIp { original: original.to_owned(), network: b },
            None => ParsedToken::NotAnIp(original.to_owned()),
        },
    }
}


/// The characters of `s`, in order.
pub fn chars_of(s: &str) -> (r: Vec<char>)
    ensures
        r@ == s@,
{
    let mut r: Vec<char> = Vec::new();
    for c in it: s.chars()
        invariant
            r@ == it.seq().take(it.index()),
    {
        r.push(c);
    }
    r
}


/// The index just after the last `':'` in `s`, or 0 where there is none.
pub open spec fn after_last_colon(s: Seq<char>) -> int
    decreases s.len(),
{
    if s.len() == 0 {
        0
    } else if s.last() == ':' {
        s.len() as int
    } else {
        after_last_colon(s.drop_last())
    }
}

/// No dotted-decimal octet of `p` has a leading zero followed by more
/// digits (an octet starts at the beginning of `p` or after a `'.'`).
pub open spec fn no_octet_leading_zero(p: Seq<char>) -> bool {
    forall|i: int|
        0 <= i < p.len() - 1 && #[trigger] p[i] == '0' && (i == 0 || p[i - 1] == '.') ==> p[i + 1]
            == '.'
}

/// `s` holds `"::"`.
pub open spec fn has_double_colon(s: Seq<char>) -> bool {
    exists|i: int| 0 <= i < s.len() - 1 && #[trigger] s[i] == ':' && s[i + 1] == ':'
}

/// The number of `':'`-separated groups of `s`: positions that start a run
/// of non-`':'` characters.
pub open spec fn group_starts(s: Seq<char>) -> nat
    decreases s.len(),
{
    if s.len() == 0 {
        0
    } else {
        group_starts(s.drop_last()) + if s.last() != ':' && (s.len() == 1 || s[s.len() - 2]
            == ':') {
            1nat
        } else {
            0nat
        }
    }
}

/// The number of 16-bit groups that the address text `s` writes out: one per
/// `':'`-separated group, and one more for an embedded dotted IPv4 tail,
/// which stands for two groups.
pub open spec fn written_groups(s: Seq<char>) -> nat {
    group_starts(s) + if s.contains('.') {
        1nat
    } else {
        0nat
    }
}

/// The two rules by which std's address syntax is narrower than the one
/// that `ipnet` parses networks with: a dotted-decimal octet has no leading
/// zero, and a `"::"` stands for at least one zero group.
pub open spec fn std_addr_rules(s: Seq<char>) -> bool {
    let tail = s.skip(after_last_colon(s));
    &&& (tail.contains('.') ==> no_octet_leading_zero(tail))
    &&& (has_double_colon(s) ==> written_groups(s) <= 7)
}

/// The bare address that `s` denotes, promoted to /32 or /128, given what
/// `ipnet` parses for `s` followed by `"/32"` and by `"/128"`.
pub open spec fn bare_addr(s: Seq<char>) -> Option<Net> {
    if !std_addr_rules(s) {
        None
    } else {
        match ipnet_from_str(s + seq!['/', '3', '2']) {
            Some(n) if !n.is_v6 => Some(Net { is_v6: false, addr: n.addr, prefix_len: 32 }),
            _ => match ipnet_from_str(s + seq!['/', '1', '2', '8']) {
                Some(n) if n.is_v6 => Some(Net { is_v6: true, addr: n.addr, prefix_len: 128 }),
                _ => None,
            },
        }
    }
}

/// The token that the text `t` parses to.
pub open spec fn token_model(t: Seq<char>) -> TokenView {
    let s = stripped(t);
    if s.len() == 0 {
        TokenView::NotAnIp(t)
    } else {
        token_of(t, ipnet_from_str(s), bare_addr(s))
    }
}

proof fn lemma_after_last_colon(s: Seq<char>, k: int)
    requires
        0 <= k <= s.len(),
        k == 0 || s[k - 1] == ':',
        forall|i: int| k <= i < s.len() ==> #[trigger] s[i] != ':',
    ensures
        after_last_colon(s) == k,
    decreases s.len(),
{
    if s.len() > k {
        let t = s.drop_last();
        assert forall|i: int| k <= i < t.len() implies #[trigger] t[i] != ':' by {
            assert(t[i] == s[i]);
        }
        lemma_after_last_colon(t, k);
    }
}

/// Whether the address text `s` keeps std's rules on octets and `"::"`.
pub fn keeps_std_addr_rules(s: &Vec<char>) -> (r: bool)
    ensures
        r == std_addr_rules(s@),
{
    let n = s.len();
    // the tail after the last ':'
    let mut k: usize = n;
    while k > 0 && s[k - 1] != ':'
        invariant
            k <= n == s@.len(),
            forall|i: int| k <= i < n ==> #[trigger] s@[i] != ':',
        decreases k,
    {
        k = k - 1;
    }
    proof {
        lemma_after_last_colon(s@, k as int);
    }
    let ghost tail = s@.skip(k as int);
    let mut dotted = false;
    let mut zero_ok = true;
    let mut i: usize = k;
    while i < n
        invariant
            k <= i <= n == s@.len(),
            tail == s@.skip(k as int),
            dotted <==> exists|j: int| k <= j < i && s@[j] == '.',
            zero_ok <==> forall|j: int|
                k <= j < i && j < n - 1 && #[trigger] s@[j] == '0' && (j == k || s@[j - 1] == '.')
                    ==> s@[j + 1] == '.',
        decreases n - i,
    {
        if s[i] == '.' {
            dotted = true;
        }
        if i + 1 < n && s[i] == '0' && (i == k || s[i - 1] == '.') && s[i + 1] != '.' {
            zero_ok = false;
        }
        i = i + 1;
    }
    proof {
        if dotted {
            let j = choose|j: int| k <= j < n && s@[j] == '.';
            assert(tail[j - k] == '.');
        }
        if tail.contains('.') {
            let j = choose|j: int| 0 <= j < tail.len() && tail[j] == '.';
            assert(s@[j + k] == '.');
        }
        if zero_ok {
            assert forall|j: int|
                0 <= j < tail.len() - 1 && #[trigger] tail[j] == '0' && (j == 0 || tail[j - 1]
                    == '.') implies tail[j + 1] == '.' by {
                assert(s@[j + k] == '0');
                if j > 0 {
                    assert(s@[j + k - 1] == '.');
                }
            }
        } else {
            let j = choose|j: int|
                k <= j < n && j < n - 1 && #[trigger] s@[j] == '0' && (j == k || s@[j - 1] == '.')
                    && s@[j + 1] != '.';
            assert(tail[j - k] == '0');
            assert(tail[j - k + 1] == s@[j + 1]);
            if j > k {
                assert(tail[j - k - 1] == s@[j - 1]);
            }
        }
    }
    let tail_ok = !dotted || zero_ok;
    // "::" and the number of written groups
    let mut double = false;
    let mut starts: usize = 0;
    let mut has_dot = false;
    let mut i: usize = 0;
    while i < n
        invariant
            i <= n == s@.len(),
            double <==> exists|j: int| 0 <= j < i && j < n - 1 && #[trigger] s@[j] == ':' && s@[j
                + 1] == ':',
            starts == group_starts(s@.take(i as int)),
            starts <= i,
            has_dot <==> s@.take(i as int).contains('.'),
        decreases n - i,
    {
        if i + 1 < n && s[i] == ':' && s[i + 1] == ':' {
            double = true;
        }
        let ghost before = s@.take(i as int);
        assert(s@.take(i + 1).drop_last() =~= before);
        if s[i] != ':' && (i == 0 || s[i - 1] == ':') {
            starts = starts + 1;
        }
        if s[i] == '.' {
            has_dot = true;
        }
        proof {
            let after = s@.take(i + 1);
            assert(after =~= before.push(s@[i as int]));
            if after.contains('.') && !before.contains('.') {
                let j = choose|j: int| 0 <= j < after.len() && #[trigger] after[j] == '.';
                if j < i {
                    assert(before[j] == '.');
                }
            }
            if before.contains('.') {
                let j = choose|j: int| 0 <= j < before.len() && #[trigger] before[j] == '.';
                assert(after[j] == '.');
            }
            if s[i as int] == '.' {
                assert(after[i as int] == '.');
            }
        }
        i = i + 1;
    }
    proof {
        assert(s@.take(n as int) =~= s@);
        if has_double_colon(s@) {
            let j = choose|j: int| 0 <= j < s@.len() - 1 && #[trigger] s@[j] == ':' && s@[j + 1]
                == ':';
            assert(j < n - 1);
        }
    }
    let groups_ok = !double || if has_dot {
        starts <= 6
    } else {
        starts <= 7
    };
    tail_ok && groups_ok
}


/// Parses the stripped text `s` as a bare IPv4 or IPv6 address, promoted to
/// /32 or /128: `s` keeps std's address rules, and `ipnet` parses `s`
/// followed by `"/32"` as an IPv4 network or `s` followed by `"/128"` as an
/// IPv6 network.
pub fn parse_bare_addr(s: &str) -> (r: Option<Net>)
    ensures
        r == bare_addr(s@),
        r matches Some(n) ==> n.wf(),
{
    let cs = chars_of(s);
    if !keeps_std_addr_rules(&cs) {
        return None;
    }
    let v4_text = s.to_owned().concat("/32");
    let v6_text = s.to_owned().concat("/128");
    proof {
        reveal_strlit("/32");
        reveal_strlit("/128");
        assert(v4_text@ =~= s@ + seq!['/', '3', '2']);
        assert(v6_text@ =~= s@ + seq!['/', '1', '2', '8']);
    }
    match parse_ipnet(v4_text.as_str()) {
        Some(n) if !n.is_v6 => {
            return Some(Net { is_v6: false, addr: n.addr, prefix_len: 32 });
        },
        _ => {},
    }
    match parse_ipnet(v6_text.as_str()) {
        Some(n) if n.is_v6 => Some(Net { is_v6: true, addr: n.addr, prefix_len: 128 }),
        _ => None,
    }
}

/// Parses a single token as a CIDR or IP address.
///
/// Leading and trailing non-CIDR punctuation is stripped first; the original
/// token is kept in the result. A CIDR (`ipnet::IpNet::from_str`) is tried
/// first and has its host bits cleared; then a bare address, promoted to
/// /32 or /128; otherwise the token is not an IP.
pub fn parse_token(token: &str) -> (r: ParsedToken)
    ensures
        r@ == token_model(token@),
        r@.wf(),
        r@.network() matches Some(n) ==> n == n.truncated(),
{
    let s = strip_cidr_punctuation(token);
    if s.is_empty() {
        let r = ParsedToken::NotAnIp(token.to_owned());
        return r;
    }
    let cidr = parse_ipnet(s);
    let bare = match cidr {
        Some(_) => None,
        None => parse_bare_addr(s),
    };
    let r = token_from_parses(token, cidr, bare);
    proof {
        lemma_token_network_normalized(token@);
    }
    r
}

/// Parsing keeps the token: the original text of the parsed token is the
/// token as given, punctuation included.
pub proof fn lemma_token_keeps_original(t: Seq<char>)
    ensures
        token_model(t).original() == t,
{
}

/// Truncation clears exactly the host bits: the truncated network keeps the
/// family and prefix, has no host bits left, and truncating again changes
/// nothing.
pub proof fn lemma_truncated_has_no_host_bits(n: Net)
    requires
        n.wf(),
    ensures
        n.truncated().wf(),
        n.truncated().network_addr() == n.truncated().addr,
        n.truncated().truncated() == n.truncated(),
        n.truncated().is_v6 == n.is_v6 && n.truncated().prefix_len == n.prefix_len,
{
    let a = n.addr;
    let m = n.mask();
    assert((a & m) & m == a & m) by (bit_vector);
    assert(a & m <= a) by (bit_vector);
}

/// A valid CIDR token is stored normalized: its network has no host bits,
/// and `had_host_bits` tells whether the parsed address differed from it.
pub proof fn lemma_valid_cidr_normalized(t: Seq<char>)
    requires
        token_model(t).wf(),
    ensures
        token_model(t) matches TokenView::ValidCidr { network, had_host_bits, .. } ==> {
            &&& network.network_addr() == network.addr
            &&& had_host_bits == (ipnet_from_str(stripped(t))->Some_0.addr != network.addr)
        },
{
    if let TokenView::ValidCidr { network, .. } = token_model(t) {
        let n = ipnet_from_str(stripped(t))->Some_0;
        let a = n.addr;
        let m = n.mask();
        assert(network.mask() == m);
        assert((a & m) & m == a & m) by (bit_vector);
    }
}

/// Every network a token carries is normalized: a valid CIDR's network and
/// a bare address's /32 or /128 network have no host bits.
pub proof fn lemma_token_network_normalized(t: Seq<char>)
    requires
        token_model(t).wf(),
    ensures
        token_model(t).network() matches Some(n) ==> n == n.truncated(),
{
    match token_model(t) {
        TokenView::ValidCidr { network, .. } => {
            let n = ipnet_from_str(stripped(t))->Some_0;
            let a = n.addr;
            let m = n.mask();
            assert(network.mask() == m);
            assert((a & m) & m == a & m) by (bit_vector);
        },
        TokenView::BareIp { network, .. } => {
            let a = network.addr;
            if network.is_v6 {
                assert(network.prefix_len == 128);
                assert(u128::MAX << 0u32 == u128::MAX) by (bit_vector);
                assert(a & u128::MAX == a) by (bit_vector);
                assert(network.mask() == u128::MAX);
            } else {
                assert(network.prefix_len == 32);
                assert((0xffff_ffffu32 << 0u32) as u128 == 0xffff_ffffu128) by (bit_vector);
                assert(a <= 0xffff_ffff ==> a & 0xffff_ffffu128 == a) by (bit_vector);
                assert(network.mask() == 0xffff_ffffu128);
            }
        },
        TokenView::NotAnIp(_) => {},
    }
}

} // verus!
