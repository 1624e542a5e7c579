//! What the headers of recorded packets have in common.
use crate::header::{
    counters_fit, dns_fields, drawn_to_length, encoded, fields_len, header_bytes, law_dns_bytes,
    law_protocol_lengths, law_quic_bytes, law_raw_prefix_keeps_fixed_bytes, law_raw_prefix_length,
    law_stun_bytes, law_tls_bytes, prefix_fields, quic_fields, spec_fields, stun_fields, tls_fields,
    Field, HeaderEndian, HeaderSpec, Spec,
};
use crate::hexadecimal::{encode, hex_text, law_hex_round_trip};
use crate::mask_rng::{random_bytes, DrawLog};
use crate::single::{fraction, less, of_int, Single};
use crate::stats::{
    law_empty_share, law_proper_fraction, law_share_threshold, law_whole_share, share,
    share_exceeds, share_of,
};
use vstd::arithmetic::power::pow;
use vstd::prelude::*;

verus! {

/// The contents of a sequence of headers.
pub open spec fn header_models(headers: Seq<Vec<u8>>) -> Seq<Seq<u8>> {
    headers.map_values(|h: Vec<u8>| h@)
}

/// The number of headers of at least `min_len` bytes that have `byte` at `position`.
pub open spec fn count_with(
    headers: Seq<Seq<u8>>,
    min_len: nat,
    position: nat,
    byte: u8,
) -> nat
    decreases headers.len(),
{
    if headers.len() == 0 {
        0
    } else {
        let h = headers.last();
        count_with(headers.drop_last(), min_len, position, byte) + if h.len() >= min_len
            && h[position as int] == byte {
            1nat
        } else {
            0
        }
    }
}

/// The number of headers that have `byte` at `position`.
pub open spec fn count_at(headers: Seq<Seq<u8>>, position: nat, byte: u8) -> nat {
    count_with(headers, position + 1, position, byte)
}

/// The number of headers whose first byte lies between `low` and `high`.
pub open spec fn count_first_between(headers: Seq<Seq<u8>>, low: u8, high: u8) -> nat
    decreases headers.len(),
{
    if headers.len() == 0 {
        0
    } else {
        let h = headers.last();
        count_first_between(headers.drop_last(), low, high) + if h.len() > 0 && low <= h[0]
            && h[0] <= high {
            1nat
        } else {
            0
        }
    }
}

/// The most frequent one of the bytes below `n` at `position`; the smallest one
/// where several are equally frequent.
pub open spec fn top_byte_below(headers: Seq<Seq<u8>>, position: nat, n: nat) -> u8
    decreases n,
{
    if n <= 1 {
        0
    } else {
        let best = top_byte_below(headers, position, (n - 1) as nat);
        let candidate = (n - 1) as u8;
        if count_at(headers, position, candidate) > count_at(headers, position, best) {
            candidate
        } else {
            best
        }
    }
}

/// The most frequent byte at `position`.
pub open spec fn top_byte(headers: Seq<Seq<u8>>, position: nat) -> u8 {
    top_byte_below(headers, position, 256)
}

/// How often the most frequent byte stands at `position`.
pub open spec fn top_count(headers: Seq<Seq<u8>>, position: nat) -> nat {
    count_at(headers, position, top_byte(headers, position))
}

/// The share of the headers that have the most frequent byte at `position`.
pub open spec fn consistency(headers: Seq<Seq<u8>>, position: nat) -> Single {
    share(top_count(headers, position), headers.len())
}

/// More than the fraction `n / d` of the headers agree at `position`.
pub open spec fn agree(headers: Seq<Seq<u8>>, position: nat, n: nat, d: nat) -> bool {
    less(fraction(n, d), consistency(headers, position))
}

/// The length of the shortest header; eight where there is none.
pub open spec fn shortest(headers: Seq<Seq<u8>>) -> nat
    decreases headers.len(),
{
    if headers.len() == 0 {
        8
    } else if headers.len() == 1 {
        headers[0].len()
    } else {
        let rest = shortest(headers.drop_last());
        if headers.last().len() < rest {
            headers.last().len()
        } else {
            rest
        }
    }
}

/// The length of the longest header; zero where there is none.
pub open spec fn longest(headers: Seq<Seq<u8>>) -> nat
    decreases headers.len(),
{
    if headers.len() == 0 {
        0
    } else {
        let rest = longest(headers.drop_last());
        if headers.last().len() > rest {
            headers.last().len()
        } else {
            rest
        }
    }
}

/// The smaller of two numbers.
pub open spec fn at_most(n: nat, cap: nat) -> nat {
    if n < cap {
        n
    } else {
        cap
    }
}

/// The length of a consensus header.
pub open spec fn consensus_len(headers: Seq<Seq<u8>>) -> nat {
    at_most(shortest(headers), 16)
}

/// The consensus of headers: at each position the byte that more than seven
/// tenths of the headers have there, or else a drawn byte.
pub open spec fn consensus(headers: Seq<Seq<u8>>, draws: Seq<u8>) -> Seq<u8> {
    if headers.len() == 0 {
        Seq::new(8, |i: int| 0u8)
    } else {
        Seq::new(
            consensus_len(headers),
            |i: int|
                if agree(headers, i as nat, 7, 10) {
                    top_byte(headers, i as nat)
                } else {
                    draws[i]
                },
        )
    }
}

/// What the headers of a recording look like.
#[allow(inconsistent_fields)]
pub enum Pattern {
    StunBinding { magic_cookie: bool },
    QuicInitial { version: u32, dcid_len: u8 },
    DnsQuery { flags: u16 },
    TlsRecord { content_type: u8, version: u16 },
    RawPrefix { prefix_hex: String, randomize_indices: Vec<usize> },
}

/// The model of a pattern.
pub enum Shape {
    StunBinding(bool),
    QuicInitial(u32, u8),
    DnsQuery(u16),
    TlsRecord(u8, u16),
    RawPrefix(Seq<char>, Seq<usize>),
}

impl View for Pattern {
    type V = Shape;

    open spec fn view(&self) -> Shape {
        match *self {
            Pattern::StunBinding { magic_cookie } => Shape::StunBinding(magic_cookie),
            Pattern::QuicInitial { version, dcid_len } => Shape::QuicInitial(version, dcid_len),
            Pattern::DnsQuery { flags } => Shape::DnsQuery(flags),
            Pattern::TlsRecord { content_type, version } => Shape::TlsRecord(content_type, version),
            Pattern::RawPrefix { prefix_hex, randomize_indices } => Shape::RawPrefix(
                prefix_hex@,
                randomize_indices@,
            ),
        }
    }
}

/// The model of an optional pattern.
pub open spec fn shape_of(pattern: Option<Pattern>) -> Option<Shape> {
    match pattern {
        Some(p) => Some(p@),
        None => None,
    }
}

/// The header specification of a pattern.
pub open spec fn shape_spec(shape: Shape) -> Spec {
    match shape {
        Shape::StunBinding(magic_cookie) => Spec::Structured(stun_fields(magic_cookie)),
        Shape::QuicInitial(version, dcid_len) => Spec::Structured(quic_fields(version, dcid_len)),
        Shape::DnsQuery(flags) => Spec::Structured(dns_fields(flags)),
        Shape::TlsRecord(content_type, version) => Spec::Structured(
            tls_fields(content_type, version),
        ),
        Shape::RawPrefix(prefix_hex, indices) => Spec::RawPrefix(prefix_hex, indices),
    }
}

/// More than half of the headers agree at each of the four positions of the STUN
/// cookie, and more than three tenths have the first byte of the cookie there.
pub open spec fn looks_like_stun(headers: Seq<Seq<u8>>) -> bool {
    &&& at_most(longest(headers), 20) >= 8
    &&& agree(headers, 4, 1, 2)
    &&& agree(headers, 5, 1, 2)
    &&& agree(headers, 6, 1, 2)
    &&& agree(headers, 7, 1, 2)
    &&& less(fraction(3, 10), cookie_share(headers))
}

/// The share of the headers that have the first byte of the STUN cookie in its
/// place and are long enough to hold the whole cookie.
pub open spec fn cookie_share(headers: Seq<Seq<u8>>) -> Single {
    share(count_with(headers, 8, 4, 0x21), headers.len())
}

/// More than half of the headers start with a QUIC long header, and more than half
/// agree on the byte after it.
pub open spec fn looks_like_quic(headers: Seq<Seq<u8>>) -> bool {
    &&& less(
        fraction(1, 2),
        share(count_first_between(headers, 0xC0, 0xCF), headers.len()),
    )
    &&& agree(headers, 1, 1, 2)
}

/// More than half of the headers agree on both bytes of the DNS flags, and more
/// than three tenths have those of a standard query.
pub open spec fn looks_like_dns(headers: Seq<Seq<u8>>) -> bool {
    &&& agree(headers, 2, 1, 2)
    &&& agree(headers, 3, 1, 2)
    &&& less(fraction(3, 10), share(count_at(headers, 2, 0x01), headers.len()))
}

/// More than half of the headers start with a TLS content type, and more than half
/// agree on it.
pub open spec fn looks_like_tls(headers: Seq<Seq<u8>>) -> bool {
    &&& less(
        fraction(1, 2),
        share(count_first_between(headers, 0x14, 0x17), headers.len()),
    )
    &&& agree(headers, 0, 1, 2)
}

/// The positions below `n` at which less than seven tenths of the headers agree.
pub open spec fn loose_positions(headers: Seq<Seq<u8>>, n: nat) -> Seq<usize>
    decreases n,
{
    if n == 0 {
        Seq::empty()
    } else {
        let before = loose_positions(headers, (n - 1) as nat);
        if less(consistency(headers, (n - 1) as nat), fraction(7, 10)) {
            before.push((n - 1) as usize)
        } else {
            before
        }
    }
}

/// The pattern of headers: the first protocol that they look like, or else the
/// first header with the positions on which the headers do not agree.
pub open spec fn inferred(headers: Seq<Seq<u8>>) -> Option<Shape> {
    let max_len = at_most(longest(headers), 20);
    let loose = loose_positions(headers, max_len);
    if headers.len() == 0 || max_len < 4 {
        None
    } else if looks_like_stun(headers) {
        Some(Shape::StunBinding(less(fraction(1, 2), cookie_share(headers))))
    } else if looks_like_quic(headers) {
        Some(Shape::QuicInitial(1, 8))
    } else if looks_like_dns(headers) {
        Some(Shape::DnsQuery(0x0100))
    } else if looks_like_tls(headers) {
        Some(
            Shape::TlsRecord(
                if count_at(headers, 0, 0x17) > count_at(headers, 0, 0x16) {
                    0x17
                } else {
                    0x16
                },
                0x0303,
            ),
        )
    } else if headers.len() >= 4 && 0 < loose.len() < headers[0].len() {
        Some(Shape::RawPrefix(hex_text(headers[0]), loose))
    } else {
        None
    }
}

/// A count is at most the number of headers.
proof fn lemma_count_bounded(headers: Seq<Seq<u8>>, min_len: nat, position: nat, byte: u8)
    ensures
        count_with(headers, min_len, position, byte) <= headers.len(),
    decreases headers.len(),
{
    if headers.len() > 0 {
        lemma_count_bounded(headers.drop_last(), min_len, position, byte);
    }
}

/// The number of headers of at least `min_len` bytes that have `byte` at `position`.
fn count_matching(headers: &Vec<Vec<u8>>, min_len: usize, position: usize, byte: u8) -> (r: usize)
    requires
        position < min_len,
    ensures
        r == count_with(header_models(headers@), min_len as nat, position as nat, byte),
        r <= headers@.len(),
{
    let ghost models = header_models(headers@);
    let mut count: usize = 0;
    let mut i: usize = 0;
    assert(models.take(0) =~= Seq::<Seq<u8>>::empty());
    while i < headers.len()
        invariant
            i <= headers@.len(),
            position < min_len,
            models == header_models(headers@),
            count <= i,
            count == count_with(models.take(i as int), min_len as nat, position as nat, byte),
        decreases headers@.len() - i,
    {
        proof {
            let next = models.take(i + 1);
            assert(next.drop_last() =~= models.take(i as int));
            assert(next.last() == headers@[i as int]@);
        }
        if headers[i].len() >= min_len && headers[i][position] == byte {
            count = count + 1;
        }
        i = i + 1;
    }
    assert(models.take(i as int) =~= models);
    count
}

/// The number of headers whose first byte lies between `low` and `high`.
fn count_first(headers: &Vec<Vec<u8>>, low: u8, high: u8) -> (r: usize)
    ensures
        r == count_first_between(header_models(headers@), low, high),
{
    let ghost models = header_models(headers@);
    let mut count: usize = 0;
    let mut i: usize = 0;
    assert(models.take(0) =~= Seq::<Seq<u8>>::empty());
    while i < headers.len()
        invariant
            i <= headers@.len(),
            models == header_models(headers@),
            count <= i,
            count == count_first_between(models.take(i as int), low, high),
        decreases headers@.len() - i,
    {
        proof {
            let next = models.take(i + 1);
            assert(next.drop_last() =~= models.take(i as int));
            assert(next.last() == headers@[i as int]@);
        }
        if headers[i].len() > 0 && low <= headers[i][0] && headers[i][0] <= high {
            count = count + 1;
        }
        i = i + 1;
    }
    assert(models.take(i as int) =~= models);
    count
}

/// How often each byte stands at `position`.
fn count_bytes(headers: &Vec<Vec<u8>>, position: usize) -> (r: Vec<usize>)
    requires
        position < usize::MAX,
    ensures
        r@.len() == 256,
        forall|b: int|
            0 <= b < 256 ==> #[trigger] r@[b] == count_at(
                header_models(headers@),
                position as nat,
                b as u8,
            ),
{
    let ghost models = header_models(headers@);
    let mut counts: Vec<usize> = vec![0; 256];
    let mut i: usize = 0;
    assert(models.take(0) =~= Seq::<Seq<u8>>::empty());
    while i < headers.len()
        invariant
            i <= headers@.len(),
            models == header_models(headers@),
            counts@.len() == 256,
            forall|b: int|
                0 <= b < 256 ==> #[trigger] counts@[b] == count_at(
                    models.take(i as int),
                    position as nat,
                    b as u8,
                ) && counts@[b] <= i,
        decreases headers@.len() - i,
    {
        let ghost next = models.take(i + 1);
        let ghost before = counts@;
        proof {
            assert(next.drop_last() =~= models.take(i as int));
            assert(next.last() == headers@[i as int]@);
        }
        if position < headers[i].len() {
            let byte: u8 = headers[i][position];
            assert(counts@[byte as int] <= i);
            let raised: usize = counts[byte as usize] + 1;
            counts.set(byte as usize, raised);
        }
        proof {
            assert forall|b: int| 0 <= b < 256 implies #[trigger] counts@[b] == count_at(
                next,
                position as nat,
                b as u8,
            ) && counts@[b] <= i + 1 by {
                assert(before[b] == count_at(models.take(i as int), position as nat, b as u8));
            }
        }
        i = i + 1;
    }
    assert(models.take(i as int) =~= models);
    counts
}

/// The most frequent byte at `position` and how often it stands there.
fn find_top(headers: &Vec<Vec<u8>>, position: usize) -> (r: (u8, usize))
    requires
        position < usize::MAX,
    ensures
        r.0 == top_byte(header_models(headers@), position as nat),
        r.1 == top_count(header_models(headers@), position as nat),
{
    let counts = count_bytes(headers, position);
    let ghost models = header_models(headers@);
    let mut best: u8 = 0;
    let mut n: usize = 1;
    while n < 256
        invariant
            1 <= n <= 256,
            counts@.len() == 256,
            forall|b: int|
                0 <= b < 256 ==> #[trigger] counts@[b] == count_at(models, position as nat, b as u8),
            best == top_byte_below(models, position as nat, n as nat),
        decreases 256 - n,
    {
        assert(counts@[n as int] == count_at(models, position as nat, n as u8));
        assert(counts@[best as int] == count_at(models, position as nat, best));
        if counts[n] > counts[best as usize] {
            best = n as u8;
        }
        n = n + 1;
    }
    (best, counts[best as usize])
}

/// Tests whether more than the fraction `n / d` of the headers agree at `position`.
fn agree_at(headers: &Vec<Vec<u8>>, position: usize, n: u64, d: u64) -> (r: bool)
    requires
        headers@.len() > 0,
        position < usize::MAX,
        d > 0,
    ensures
        r == agree(header_models(headers@), position as nat, n as nat, d as nat),
{
    let (_, count) = find_top(headers, position);
    share_exceeds(count as u64, headers.len() as u64, n, d)
}

/// The length of a consensus header.
fn common_len(headers: &Vec<Vec<u8>>) -> (r: usize)
    ensures
        r == consensus_len(header_models(headers@)),
        forall|i: int| 0 <= i < headers@.len() ==> r <= (#[trigger] headers@[i])@.len(),
{
    let ghost models = header_models(headers@);
    if headers.len() == 0 {
        return 8;
    }
    let mut least: usize = headers[0].len();
    let mut i: usize = 1;
    while i < headers.len()
        invariant
            1 <= i <= headers@.len(),
            models == header_models(headers@),
            least == shortest(models.take(i as int)),
            forall|k: int| 0 <= k < i ==> least <= (#[trigger] headers@[k])@.len(),
        decreases headers@.len() - i,
    {
        proof {
            let next = models.take(i + 1);
            assert(next.drop_last() =~= models.take(i as int));
            assert(next.last() == headers@[i as int]@);
        }
        if headers[i].len() < least {
            least = headers[i].len();
        }
        i = i + 1;
    }
    assert(models.take(i as int) =~= models);
    if least < 16 {
        least
    } else {
        16
    }
}

/// The length of the longest header, at most twenty.
fn analysed_len(headers: &Vec<Vec<u8>>) -> (r: usize)
    ensures
        r == at_most(longest(header_models(headers@)), 20),
{
    let ghost models = header_models(headers@);
    let mut most: usize = 0;
    let mut i: usize = 0;
    assert(models.take(0) =~= Seq::<Seq<u8>>::empty());
    while i < headers.len()
        invariant
            i <= headers@.len(),
            models == header_models(headers@),
            most == longest(models.take(i as int)),
        decreases headers@.len() - i,
    {
        proof {
            let next = models.take(i + 1);
            assert(next.drop_last() =~= models.take(i as int));
            assert(next.last() == headers@[i as int]@);
        }
        if headers[i].len() > most {
            most = headers[i].len();
        }
        i = i + 1;
    }
    assert(models.take(i as int) =~= models);
    if most < 20 {
        most
    } else {
        20
    }
}

/// The consensus of headers, for given random bytes: one for each position.
pub fn header_consensus_with(headers: &Vec<Vec<u8>>, draws: &Vec<u8>) -> (r: Vec<u8>)
    requires
        draws@.len() >= consensus_len(header_models(headers@)),
    ensures
        r@ == consensus(header_models(headers@), draws@),
{
    let ghost models = header_models(headers@);
    if headers.len() == 0 {
        let zeros: Vec<u8> = vec![0; 8];
        assert(zeros@ =~= consensus(models, draws@));
        return zeros;
    }
    let len: usize = common_len(headers);
    let mut result: Vec<u8> = Vec::new();
    while result.len() < len
        invariant
            headers@.len() > 0,
            models == header_models(headers@),
            len == consensus_len(models),
            len <= 16,
            len <= draws@.len(),
            result@.len() <= len,
            result@ == consensus(models, draws@).take(result@.len() as int),
        decreases len - result@.len(),
    {
        let position: usize = result.len();
        let (byte, count) = find_top(headers, position);
        let fixed = share_exceeds(count as u64, headers.len() as u64, 7, 10);
        let ghost before = result@;
        if fixed {
            result.push(byte);
        } else {
            result.push(draws[position]);
        }
        assert(result@ =~= consensus(models, draws@).take(result@.len() as int));
    }
    assert(result@ =~= consensus(models, draws@));
    result
}

/// The consensus of headers. Positions on which they do not agree get a random
/// byte.
pub fn header_consensus(headers: &Vec<Vec<u8>>) -> (r: Vec<u8>)
    ensures
        exists|draws: Seq<u8>|
            draws.len() == 16 && r@ == #[trigger] consensus(header_models(headers@), draws),
{
    let draws = random_bytes(16);
    header_consensus_with(headers, &draws)
}

/// The positions below `n` at which less than seven tenths of the headers agree.
fn find_loose(headers: &Vec<Vec<u8>>, n: usize) -> (r: Vec<usize>)
    requires
        headers@.len() > 0,
    ensures
        r@ == loose_positions(header_models(headers@), n as nat),
{
    let mut loose: Vec<usize> = Vec::new();
    let mut i: usize = 0;
    while i < n
        invariant
            i <= n,
            headers@.len() > 0,
            loose@ == loose_positions(header_models(headers@), i as nat),
        decreases n - i,
    {
        let (_, count) = find_top(headers, i);
        let ratio = share_of(count as u64, headers.len() as u64);
        if ratio.less(Single::fraction(7, 10)) {
            loose.push(i);
        }
        i = i + 1;
    }
    loose
}

/// The pattern of the headers of a recording. None is found for headers without
/// data, nor where the headers look like no known protocol and agree either on
/// every position or on none.
pub fn infer_pattern(headers: &Vec<Vec<u8>>) -> (r: Option<Pattern>)
    requires
        headers@.len() > 0 ==> 2 * headers@[0]@.len() <= isize::MAX,
    ensures
        shape_of(r) == inferred(header_models(headers@)),
{
    let ghost models = header_models(headers@);
    if headers.len() == 0 {
        return None;
    }
    let max_len: usize = analysed_len(headers);
    if max_len < 4 {
        return None;
    }
    let total: u64 = headers.len() as u64;
    let cookies: u64 = count_matching(headers, 8, 4, 0x21) as u64;
    if max_len >= 8 && agree_at(headers, 4, 1, 2) && agree_at(headers, 5, 1, 2) && agree_at(
        headers,
        6,
        1,
        2,
    ) && agree_at(headers, 7, 1, 2) && share_exceeds(cookies, total, 3, 10) {
        return Some(Pattern::StunBinding { magic_cookie: share_exceeds(cookies, total, 1, 2) });
    }
    let long_headers: u64 = count_first(headers, 0xC0, 0xCF) as u64;
    if share_exceeds(long_headers, total, 1, 2) && agree_at(headers, 1, 1, 2) {
        return Some(Pattern::QuicInitial { version: 1, dcid_len: 8 });
    }
    let queries: u64 = count_matching(headers, 3, 2, 0x01) as u64;
    if agree_at(headers, 2, 1, 2) && agree_at(headers, 3, 1, 2) && share_exceeds(
        queries,
        total,
        3,
        10,
    ) {
        return Some(Pattern::DnsQuery { flags: 0x0100 });
    }
    let records: u64 = count_first(headers, 0x14, 0x17) as u64;
    if share_exceeds(records, total, 1, 2) && agree_at(headers, 0, 1, 2) {
        let data: usize = count_matching(headers, 1, 0, 0x17);
        let handshakes: usize = count_matching(headers, 1, 0, 0x16);
        let content_type: u8 = if data > handshakes {
            0x17
        } else {
            0x16
        };
        return Some(Pattern::TlsRecord { content_type, version: 0x0303 });
    }
    if headers.len() >= 4 {
        let loose = find_loose(headers, max_len);
        assert(models[0] == headers@[0]@);
        if loose.len() > 0 && loose.len() < headers[0].len() {
            return Some(
                Pattern::RawPrefix {
                    prefix_hex: encode(headers[0].as_slice()),
                    randomize_indices: loose,
                },
            );
        }
    }
    None
}

impl Pattern {
    /// The header specification of this pattern.
    pub fn to_spec(&self) -> (r: HeaderSpec)
        ensures
            r@ == shape_spec(self@),
    {
        match self {
            Pattern::StunBinding { magic_cookie } => HeaderSpec::stun_binding_with_cookie(
                *magic_cookie,
            ),
            Pattern::QuicInitial { version, dcid_len } => HeaderSpec::quic_initial(
                *version,
                *dcid_len,
            ),
            Pattern::DnsQuery { flags } => HeaderSpec::dns_query(*flags),
            Pattern::TlsRecord { content_type, version } => HeaderSpec::tls_record(
                *content_type,
                *version,
            ),
            Pattern::RawPrefix { prefix_hex, randomize_indices } => {
                let indices = randomize_indices.clone();
                assert(indices@ =~= randomize_indices@);
                HeaderSpec::RawPrefix { prefix_hex: prefix_hex.clone(), randomize_indices: indices }
            },
        }
    }
}

/// The header specification of the headers of a recording.
pub fn infer_header_spec(headers: &Vec<Vec<u8>>) -> (r: Option<HeaderSpec>)
    requires
        headers@.len() > 0 ==> 2 * headers@[0]@.len() <= isize::MAX,
    ensures
        match r {
            Some(spec) => inferred(header_models(headers@)) is Some && spec@ == shape_spec(
                inferred(header_models(headers@))->0,
            ),
            None => inferred(header_models(headers@)) is None,
        },
{
    match infer_pattern(headers) {
        Some(pattern) => Some(pattern.to_spec()),
        None => None,
    }
}

/// All headers have `byte` at `position`.
pub open spec fn unanimous(headers: Seq<Seq<u8>>, position: nat, byte: u8) -> bool {
    forall|k: int|
        0 <= k < headers.len() ==> (#[trigger] headers[k]).len() > position
            && headers[k][position as int] == byte
}

/// The byte that all headers have is counted in all of them, any other in none.
proof fn lemma_unanimous_count(headers: Seq<Seq<u8>>, position: nat, byte: u8, other: u8)
    requires
        unanimous(headers, position, byte),
    ensures
        count_at(headers, position, other) == if other == byte {
            headers.len()
        } else {
            0
        },
    decreases headers.len(),
{
    if headers.len() > 0 {
        assert(headers.last() == headers[headers.len() - 1]);
        assert forall|k: int| 0 <= k < headers.drop_last().len() implies (
        #[trigger] headers.drop_last()[k]).len() > position && headers.drop_last()[k][position as int]
            == byte by {
            assert(headers.drop_last()[k] == headers[k]);
        }
        lemma_unanimous_count(headers.drop_last(), position, byte, other);
    }
}

/// Where all headers agree, the most frequent byte is the one that they have.
proof fn lemma_unanimous_top(headers: Seq<Seq<u8>>, position: nat, byte: u8, n: nat)
    requires
        headers.len() > 0,
        unanimous(headers, position, byte),
        1 <= n <= 256,
    ensures
        top_byte_below(headers, position, n) == if byte < n {
            byte
        } else {
            0
        },
    decreases n,
{
    if n > 1 {
        lemma_unanimous_top(headers, position, byte, (n - 1) as nat);
        lemma_unanimous_count(headers, position, byte, (n - 1) as u8);
        lemma_unanimous_count(headers, position, byte, 0);
        lemma_unanimous_count(headers, position, byte, byte);
    }
}

/// Where all headers have the same byte, that byte is the most frequent one, and
/// the headers agree on it by every measure below one.
pub proof fn law_unanimous_agree(headers: Seq<Seq<u8>>, position: nat, byte: u8, n: nat, d: nat)
    requires
        0 < headers.len() <= u64::MAX,
        unanimous(headers, position, byte),
        0 < n < d < 0x80_0000,
    ensures
        top_byte(headers, position) == byte,
        consistency(headers, position) == of_int(1),
        agree(headers, position, n, d),
{
    lemma_unanimous_top(headers, position, byte, 256);
    lemma_unanimous_count(headers, position, byte, byte);
    law_whole_share(headers.len());
    law_proper_fraction(n, d);
}

/// The most frequent byte is the smallest of those with the largest count.
pub proof fn law_top_byte(headers: Seq<Seq<u8>>, position: nat, other: u8)
    ensures
        count_at(headers, position, other) <= top_count(headers, position),
        other < top_byte(headers, position) ==> count_at(headers, position, other) < top_count(
            headers,
            position,
        ),
{
    lemma_top_below(headers, position, 256, other);
}

/// No byte below a bound is more frequent than the most frequent one below it.
proof fn lemma_top_below(headers: Seq<Seq<u8>>, position: nat, n: nat, other: u8)
    requires
        1 <= n <= 256,
        other < n,
    ensures
        top_byte_below(headers, position, n) < n,
        count_at(headers, position, other) <= count_at(
            headers,
            position,
            top_byte_below(headers, position, n),
        ),
        other < top_byte_below(headers, position, n) ==> count_at(headers, position, other)
            < count_at(headers, position, top_byte_below(headers, position, n)),
    decreases n,
{
    if n > 1 {
        let j = (n - 1) as nat;
        if other < j {
            lemma_top_below(headers, position, j, other);
        } else {
            lemma_top_below(headers, position, j, 0);
        }
    }
}

/// For fewer than 838861 headers the consensus takes a byte from the headers exactly
/// where more than seven tenths of them have it.
pub proof fn law_consensus_is_majority(headers: Seq<Seq<u8>>, draws: Seq<u8>, position: int)
    requires
        0 < headers.len() < 838861,
        0 <= position < consensus_len(headers),
    ensures
        consensus(headers, draws)[position] == if 10 * top_count(headers, position as nat) > 7
            * headers.len() {
            top_byte(headers, position as nat)
        } else {
            draws[position]
        },
{
    lemma_count_bounded(
        headers,
        (position + 1) as nat,
        position as nat,
        top_byte(headers, position as nat),
    );
    law_share_threshold(top_count(headers, position as nat), headers.len(), 7, 10);
}

/// A byte that all headers share stands in their consensus, whatever is drawn.
pub proof fn law_consensus_keeps_common_bytes(
    headers: Seq<Seq<u8>>,
    draws: Seq<u8>,
    position: int,
    byte: u8,
)
    requires
        0 < headers.len() <= u64::MAX,
        0 <= position < consensus_len(headers),
        unanimous(headers, position as nat, byte),
    ensures
        consensus(headers, draws)[position] == byte,
{
    law_unanimous_agree(headers, position as nat, byte, 7, 10);
}

/// A header that a specification gives, for some state of the generator.
pub open spec fn generated(header: Seq<u8>, fields: Seq<Field>) -> bool {
    exists|log: DrawLog|
        drawn_to_length(fields, log) && header == #[trigger] header_bytes(fields, log)
}

/// All headers come from one specification.
pub open spec fn all_generated(headers: Seq<Seq<u8>>, fields: Seq<Field>) -> bool {
    forall|k: int| 0 <= k < headers.len() ==> #[trigger] generated(headers[k], fields)
}

/// The longest header is at least as long as any.
proof fn lemma_longest(headers: Seq<Seq<u8>>, k: int)
    requires
        0 <= k < headers.len(),
    ensures
        longest(headers) >= headers[k].len(),
    decreases headers.len(),
{
    if k < headers.len() - 1 {
        lemma_longest(headers.drop_last(), k);
    }
}

/// Where all headers have the cookie's first byte in its place, all are counted.
proof fn lemma_all_counted(headers: Seq<Seq<u8>>, min_len: nat, position: nat, byte: u8)
    requires
        unanimous(headers, position, byte),
        forall|k: int| 0 <= k < headers.len() ==> (#[trigger] headers[k]).len() >= min_len,
    ensures
        count_with(headers, min_len, position, byte) == headers.len(),
    decreases headers.len(),
{
    if headers.len() > 0 {
        let front = headers.drop_last();
        assert(headers.last() == headers[headers.len() - 1]);
        assert forall|k: int| 0 <= k < front.len() implies (#[trigger] front[k]).len() > position
            && front[k][position as int] == byte && front[k].len() >= min_len by {
            assert(front[k] == headers[k]);
        }
        lemma_all_counted(front, min_len, position, byte);
    }
}

/// A byte that no header has at a position is not counted.
proof fn lemma_none_counted(headers: Seq<Seq<u8>>, min_len: nat, position: nat, byte: u8, other: u8)
    requires
        unanimous(headers, position, byte),
        other != byte,
    ensures
        count_with(headers, min_len, position, other) == 0,
    decreases headers.len(),
{
    if headers.len() > 0 {
        let front = headers.drop_last();
        assert(headers.last() == headers[headers.len() - 1]);
        assert forall|k: int| 0 <= k < front.len() implies (#[trigger] front[k]).len() > position
            && front[k][position as int] == byte by {
            assert(front[k] == headers[k]);
        }
        lemma_none_counted(front, min_len, position, byte, other);
    }
}

/// Where all headers have the same first byte, it is counted in all of them or none.
proof fn lemma_first_counted(headers: Seq<Seq<u8>>, byte: u8, low: u8, high: u8)
    requires
        unanimous(headers, 0, byte),
    ensures
        count_first_between(headers, low, high) == if low <= byte && byte <= high {
            headers.len()
        } else {
            0
        },
    decreases headers.len(),
{
    if headers.len() > 0 {
        let front = headers.drop_last();
        assert(headers.last() == headers[headers.len() - 1]);
        assert forall|k: int| 0 <= k < front.len() implies (#[trigger] front[k]).len() > 0
            && front[k][0] == byte by {
            assert(front[k] == headers[k]);
        }
        lemma_first_counted(front, byte, low, high);
    }
}

/// A whole exceeds every fraction below one; nothing exceeds none.
proof fn lemma_shares(total: nat, n: nat, d: nat)
    requires
        0 < total <= u64::MAX,
        0 < n < d < 0x80_0000,
    ensures
        less(fraction(n, d), share(total, total)),
        !less(fraction(n, d), share(0, total)),
{
    law_whole_share(total);
    law_empty_share(total);
    law_proper_fraction(n, d);
}

/// Headers that all come from the STUN specification are recognised as STUN, with
/// the cookie.
pub proof fn law_inference_recovers_stun(headers: Seq<Seq<u8>>)
    requires
        0 < headers.len() <= u64::MAX,
        all_generated(headers, stun_fields(true)),
    ensures
        inferred(headers) == Some(Shape::StunBinding(true)),
{
    assert forall|k: int| 0 <= k < headers.len() implies (#[trigger] headers[k]).len() == 20
        && headers[k][4] == 0x21 && headers[k][5] == 0x12 && headers[k][6] == 0xA4
        && headers[k][7] == 0x42 by {
        assert(generated(headers[k], stun_fields(true)));
        let log = choose|log: DrawLog|
            drawn_to_length(stun_fields(true), log) && headers[k] == #[trigger] header_bytes(
                stun_fields(true),
                log,
            );
        law_stun_bytes(true, log);
        let part = headers[k].subrange(4, 8);
        assert(part[0] == 0x21 && part[1] == 0x12 && part[2] == 0xA4 && part[3] == 0x42);
    }
    lemma_longest(headers, 0);
    law_unanimous_agree(headers, 4, 0x21, 1, 2);
    law_unanimous_agree(headers, 5, 0x12, 1, 2);
    law_unanimous_agree(headers, 6, 0xA4, 1, 2);
    law_unanimous_agree(headers, 7, 0x42, 1, 2);
    lemma_all_counted(headers, 8, 4, 0x21);
    lemma_shares(headers.len(), 3, 10);
    lemma_shares(headers.len(), 1, 2);
}

/// Headers that all come from the QUIC specification with version one are recognised
/// as QUIC.
pub proof fn law_inference_recovers_quic(headers: Seq<Seq<u8>>, dcid_len: u8)
    requires
        0 < headers.len() <= u64::MAX,
        all_generated(headers, quic_fields(1, dcid_len)),
    ensures
        inferred(headers) == Some(Shape::QuicInitial(1, 8)),
{
    lemma_one_encoded();
    assert forall|k: int| 0 <= k < headers.len() implies (#[trigger] headers[k]).len() >= 14
        && headers[k][0] == 0xC0 && headers[k][1] == 0x00 && headers[k][4] == 0x01 by {
        assert(generated(headers[k], quic_fields(1, dcid_len)));
        let log = choose|log: DrawLog|
            drawn_to_length(quic_fields(1, dcid_len), log) && headers[k]
                == #[trigger] header_bytes(quic_fields(1, dcid_len), log);
        law_quic_bytes(1, dcid_len, log);
        let first = headers[k].subrange(0, 1);
        let version = headers[k].subrange(1, 5);
        assert(first[0] == 0xC0 && version[0] == 0x00 && version[3] == 0x01);
    }
    lemma_longest(headers, 0);
    lemma_none_counted(headers, 8, 4, 0x01, 0x21);
    law_unanimous_agree(headers, 1, 0x00, 1, 2);
    lemma_first_counted(headers, 0xC0, 0xC0, 0xCF);
    lemma_shares(headers.len(), 3, 10);
    lemma_shares(headers.len(), 1, 2);
}

/// The bytes of the QUIC version one.
proof fn lemma_one_encoded()
    ensures
        encoded(1, 4, HeaderEndian::Big) == seq![0x00u8, 0x00, 0x00, 0x01],
{
    vstd::arithmetic::power::lemma_pow0(256);
    vstd::arithmetic::power::lemma_pow1(256);
    assert(pow(256, 2) == 65536 && pow(256, 3) == 16777216) by {
        vstd::arithmetic::power::lemma_pow_adds(256, 1, 1);
        vstd::arithmetic::power::lemma_pow_adds(256, 1, 2);
    }
    assert(encoded(1, 4, HeaderEndian::Big) =~= seq![0x00u8, 0x00, 0x00, 0x01]);
}

/// The bytes of the flags of a standard DNS query.
proof fn lemma_query_flags_encoded()
    ensures
        encoded(0x0100, 2, HeaderEndian::Big) == seq![0x01u8, 0x00],
{
    vstd::arithmetic::power::lemma_pow0(256);
    vstd::arithmetic::power::lemma_pow1(256);
    assert(encoded(0x0100, 2, HeaderEndian::Big) =~= seq![0x01u8, 0x00]);
}

/// Headers that all come from the DNS specification are recognised as DNS, unless
/// their random identifiers make them look like QUIC.
pub proof fn law_inference_recovers_dns(headers: Seq<Seq<u8>>)
    requires
        0 < headers.len() <= u64::MAX,
        all_generated(headers, dns_fields(0x0100)),
        !looks_like_quic(headers),
    ensures
        inferred(headers) == Some(Shape::DnsQuery(0x0100)),
{
    let fields = dns_fields(0x0100);
    lemma_query_flags_encoded();
    assert forall|k: int| 0 <= k < headers.len() implies (#[trigger] headers[k]).len() == 12
        && headers[k][2] == 0x01 && headers[k][3] == 0x00 && headers[k][4] == 0x00 by {
        assert(generated(headers[k], fields));
        let log = choose|log: DrawLog|
            drawn_to_length(fields, log) && headers[k] == #[trigger] header_bytes(fields, log);
        law_dns_bytes(0x0100, log);
        let flags = headers[k].subrange(2, 4);
        let counts = headers[k].subrange(4, 12);
        assert(flags[0] == 0x01 && flags[1] == 0x00 && counts[0] == 0x00);
    }
    lemma_longest_exact(headers, 12);
    lemma_none_counted(headers, 8, 4, 0x00, 0x21);
    lemma_unanimous_count(headers, 2, 0x01, 0x01);
    law_unanimous_agree(headers, 2, 0x01, 1, 2);
    law_unanimous_agree(headers, 3, 0x00, 1, 2);
    lemma_shares(headers.len(), 3, 10);
    lemma_shares(headers.len(), 1, 2);
}

/// The bytes of the TLS version.
proof fn lemma_tls_version_encoded()
    ensures
        encoded(0x0303, 2, HeaderEndian::Big) == seq![0x03u8, 0x03],
{
    vstd::arithmetic::power::lemma_pow0(256);
    vstd::arithmetic::power::lemma_pow1(256);
    assert(encoded(0x0303, 2, HeaderEndian::Big) =~= seq![0x03u8, 0x03]);
}

/// Headers that all come from the specification of TLS records with application data,
/// or that of TLS records with handshakes, are recognised as such.
pub proof fn law_inference_recovers_tls(headers: Seq<Seq<u8>>, content_type: u8)
    requires
        0 < headers.len() <= u64::MAX,
        content_type == 0x16 || content_type == 0x17,
        all_generated(headers, tls_fields(content_type, 0x0303)),
    ensures
        inferred(headers) == Some(Shape::TlsRecord(content_type, 0x0303)),
{
    let fields = tls_fields(content_type, 0x0303);
    lemma_tls_version_encoded();
    assert forall|k: int| 0 <= k < headers.len() implies #[trigger] headers[k] == seq![
        content_type,
        0x03u8,
        0x03,
        0x00,
        0x00,
    ] by {
        assert(generated(headers[k], fields));
        let log = choose|log: DrawLog|
            drawn_to_length(fields, log) && headers[k] == #[trigger] header_bytes(fields, log);
        law_tls_bytes(content_type, 0x0303, log);
        assert(headers[k] =~= seq![content_type, 0x03u8, 0x03, 0x00, 0x00]);
    }
    lemma_longest_exact(headers, 5);
    lemma_first_counted(headers, content_type, 0xC0, 0xCF);
    lemma_first_counted(headers, content_type, 0x14, 0x17);
    lemma_none_counted(headers, 3, 2, 0x03, 0x01);
    law_unanimous_agree(headers, 0, content_type, 1, 2);
    lemma_shares(headers.len(), 3, 10);
    lemma_shares(headers.len(), 1, 2);
    lemma_unanimous_count(headers, 0, content_type, 0x16);
    lemma_unanimous_count(headers, 0, content_type, 0x17);
}

/// Headers of one length have that length as the longest.
proof fn lemma_longest_exact(headers: Seq<Seq<u8>>, len: nat)
    requires
        headers.len() > 0,
        forall|k: int| 0 <= k < headers.len() ==> (#[trigger] headers[k]).len() == len,
    ensures
        longest(headers) == len,
    decreases headers.len(),
{
    assert(headers.last() == headers[headers.len() - 1]);
    if headers.len() > 1 {
        let front = headers.drop_last();
        assert forall|k: int| 0 <= k < front.len() implies (#[trigger] front[k]).len() == len by {
            assert(front[k] == headers[k]);
        }
        lemma_longest_exact(front, len);
    } else {
        assert(longest(headers.drop_last()) == 0);
    }
}

/// The specification of a raw prefix that is inferred from headers gives headers that
/// keep the bytes of the first one at every position on which seven tenths or more
/// agree, and at every position that was not looked at.
pub proof fn law_inferred_prefix_keeps_agreed_bytes(
    headers: Seq<Seq<u8>>,
    log: DrawLog,
    position: int,
)
    requires
        inferred(headers) matches Some(Shape::RawPrefix(_, _)),
        headers[0].len() <= usize::MAX,
        0 <= position < headers[0].len(),
        position >= 20 || !less(
            consistency(headers, position as nat),
            fraction(7, 10),
        ),
        drawn_to_length(spec_fields(shape_spec(inferred(headers)->0)), log),
    ensures
        header_bytes(spec_fields(shape_spec(inferred(headers)->0)), log).len() == headers[0].len(),
        header_bytes(spec_fields(shape_spec(inferred(headers)->0)), log)[position]
            == headers[0][position],
{
    let loose = loose_positions(headers, at_most(longest(headers), 20));
    lemma_inferred_prefix(headers);
    law_raw_prefix_keeps_fixed_bytes(headers[0], loose, log);
    lemma_loose_exact(headers, at_most(longest(headers), 20), position as usize);
}

/// The fields of a raw prefix that is inferred from headers.
proof fn lemma_inferred_prefix(headers: Seq<Seq<u8>>)
    requires
        inferred(headers) matches Some(Shape::RawPrefix(_, _)),
    ensures
        spec_fields(shape_spec(inferred(headers)->0)) == prefix_fields(
            headers[0],
            loose_positions(headers, at_most(longest(headers), 20)),
        ),
{
    law_hex_round_trip(headers[0]);
}

/// Whatever the headers of a recording are, headers can be generated from what is
/// inferred of them: they are no longer than the first recorded header or than the
/// longest one of a known protocol, and no counter runs out of its range.
pub proof fn law_inferred_headers_can_be_generated(headers: Seq<Seq<u8>>)
    requires
        inferred(headers) is Some,
    ensures
        ({
            let fields = spec_fields(shape_spec(inferred(headers)->0));
            &&& counters_fit(fields)
            &&& fields_len(fields) <= 20 || fields_len(fields) == headers[0].len()
        }),
{
    let shape = inferred(headers)->0;
    match shape {
        Shape::StunBinding(magic_cookie) => {
            law_protocol_lengths(magic_cookie, 0, 0, 0, 0, 0);
        },
        Shape::QuicInitial(version, dcid_len) => {
            law_protocol_lengths(false, version, dcid_len, 0, 0, 0);
        },
        Shape::DnsQuery(flags) => {
            law_protocol_lengths(false, 0, 0, flags, 0, 0);
        },
        Shape::TlsRecord(content_type, version) => {
            law_protocol_lengths(false, 0, 0, 0, content_type, version);
        },
        Shape::RawPrefix(_, _) => {
            lemma_inferred_prefix(headers);
            law_raw_prefix_length(
                headers[0],
                loose_positions(headers, at_most(longest(headers), 20)),
            );
        },
    }
}

/// The positions that are listed as loose are those where too few headers agree.
proof fn lemma_loose_exact(headers: Seq<Seq<u8>>, n: nat, position: usize)
    requires
        n <= 20,
    ensures
        loose_positions(headers, n).contains(position) <==> position < n && less(
            consistency(headers, position as nat),
            fraction(7, 10),
        ),
    decreases n,
{
    if n > 0 {
        let before = loose_positions(headers, (n - 1) as nat);
        lemma_loose_exact(headers, (n - 1) as nat, position);
        let here = (n - 1) as usize;
        if less(consistency(headers, (n - 1) as nat), fraction(7, 10)) {
            let now = before.push(here);
            assert(now.last() == here);
            assert(now.contains(position) <==> before.contains(position) || position == here) by {
                if before.contains(position) {
                    let k = choose|k: int| 0 <= k < before.len() && before[k] == position;
                    assert(now[k] == position);
                }
                if now.contains(position) {
                    let k = choose|k: int| 0 <= k < now.len() && now[k] == position;
                    if k < before.len() {
                        assert(before[k] == position);
                    }
                }
                if position == here {
                    assert(now[now.len() - 1] == position);
                }
            }
        }
    }
}

/// The number of headers that reach beyond a position and have a byte there.
pub open spec fn having(headers: Seq<Seq<u8>>, position: int, byte: u8) -> nat {
    headers.filter(|h: Seq<u8>| h.len() > position && h[position] == byte).len()
}

/// More than half of the headers have one and the same byte at a position.
pub open spec fn half_agree(headers: Seq<Seq<u8>>, position: int) -> bool {
    exists|byte: u8| 2 * #[trigger] having(headers, position, byte) > headers.len()
}

/// Counting headers by a byte is counting those that pass the test.
proof fn lemma_count_with(headers: Seq<Seq<u8>>, min_len: nat, position: nat, byte: u8)
    ensures
        count_with(headers, min_len, position, byte) == headers.filter(
            |h: Seq<u8>| h.len() >= min_len && h[position as int] == byte,
        ).len(),
        count_with(headers, min_len, position, byte) <= headers.len(),
    decreases headers.len(),
{
    reveal(Seq::filter);
    if headers.len() > 0 {
        lemma_count_with(headers.drop_last(), min_len, position, byte);
    }
}

/// Counting headers by a byte at a position that they reach beyond.
proof fn lemma_count_at(headers: Seq<Seq<u8>>, position: nat, byte: u8)
    ensures
        count_at(headers, position, byte) == having(headers, position as int, byte),
        count_at(headers, position, byte) <= headers.len(),
    decreases headers.len(),
{
    reveal(Seq::filter);
    if headers.len() > 0 {
        lemma_count_at(headers.drop_last(), position, byte);
    }
}

/// Counting headers by their first byte is counting those that pass the test.
proof fn lemma_count_first(headers: Seq<Seq<u8>>, low: u8, high: u8)
    ensures
        count_first_between(headers, low, high) == headers.filter(
            |h: Seq<u8>| h.len() > 0 && low <= h[0] && h[0] <= high,
        ).len(),
        count_first_between(headers, low, high) <= headers.len(),
    decreases headers.len(),
{
    reveal(Seq::filter);
    if headers.len() > 0 {
        lemma_count_first(headers.drop_last(), low, high);
    }
}

/// For few enough headers, more than a fraction of them agree at a position exactly if more
/// than that fraction have one byte there; counted in whole headers.
proof fn lemma_agree_counted(headers: Seq<Seq<u8>>, position: nat, n: nat, d: nat)
    requires
        0 < headers.len(),
        0 < n <= d,
        headers.len() * d < 0x80_0000,
    ensures
        agree(headers, position, n, d) <==> exists|byte: u8|
            n * headers.len() < #[trigger] having(headers, position as int, byte) * d,
        less(consistency(headers, position), fraction(n, d)) <==> forall|byte: u8| #[trigger]
            having(headers, position as int, byte) * d < n * headers.len(),
{
    let top = top_byte(headers, position);
    lemma_count_at(headers, position, top);
    law_share_threshold(top_count(headers, position), headers.len(), n, d);
    assert forall|byte: u8| #[trigger] having(headers, position as int, byte) * d <= top_count(
        headers,
        position,
    ) * d by {
        lemma_count_at(headers, position, byte);
        law_top_byte(headers, position, byte);
        vstd::arithmetic::mul::lemma_mul_inequality(
            having(headers, position as int, byte) as int,
            top_count(headers, position) as int,
            d as int,
        );
    }
    assert(having(headers, position as int, top) == top_count(headers, position));
}

/// More than half agree by the share exactly if more than half agree by the count.
proof fn lemma_half_agree(headers: Seq<Seq<u8>>, position: nat)
    requires
        0 < headers.len() < 0x40_0000,
    ensures
        agree(headers, position, 1, 2) <==> half_agree(headers, position as int),
{
    lemma_agree_counted(headers, position, 1, 2);
    if agree(headers, position, 1, 2) {
        let byte = choose|byte: u8|
            1 * headers.len() < #[trigger] having(headers, position as int, byte) * 2;
        assert(2 * having(headers, position as int, byte) > headers.len());
    }
    if half_agree(headers, position as int) {
        let byte = choose|byte: u8|
            2 * #[trigger] having(headers, position as int, byte) > headers.len();
        assert(1 * headers.len() < having(headers, position as int, byte) * 2);
    }
}

/// The longest header reaches as far as some header does.
proof fn lemma_longest_reached(headers: Seq<Seq<u8>>, len: nat)
    requires
        len > 0,
    ensures
        longest(headers) >= len <==> exists|k: int|
            0 <= k < headers.len() && (#[trigger] headers[k]).len() >= len,
    decreases headers.len(),
{
    if headers.len() > 0 {
        let front = headers.drop_last();
        lemma_longest_reached(front, len);
        assert(headers[headers.len() - 1] == headers.last());
        if longest(front) >= len {
            let k = choose|k: int| 0 <= k < front.len() && (#[trigger] front[k]).len() >= len;
            assert(headers[k] == front[k]);
        }
        if exists|k: int| 0 <= k < headers.len() && (#[trigger] headers[k]).len() >= len {
            let k = choose|k: int| 0 <= k < headers.len() && (#[trigger] headers[k]).len() >= len;
            if k < front.len() {
                assert(front[k] == headers[k]);
            }
        }
    }
}

/// Something is inferred only where some header has four bytes or more.
pub proof fn law_short_headers_have_no_pattern(headers: Seq<Seq<u8>>)
    requires
        forall|k: int| 0 <= k < headers.len() ==> (#[trigger] headers[k]).len() < 4,
    ensures
        inferred(headers) is None,
{
    lemma_longest_reached(headers, 4);
}

/// Headers are taken for STUN exactly if some header has eight bytes or more, more than half
/// agree at each of the positions from four to seven, and more than three tenths have `0x21`
/// at position four and eight bytes or more; with the cookie if these are more than half.
pub proof fn law_stun_goes_by_counts(headers: Seq<Seq<u8>>)
    requires
        0 < headers.len() < 838861,
    ensures
        ({
            let cookies = headers.filter(|h: Seq<u8>| h.len() >= 8 && h[4] == 0x21).len();
            let looks = (exists|k: int|
                0 <= k < headers.len() && (#[trigger] headers[k]).len() >= 8) && half_agree(
                headers,
                4,
            ) && half_agree(headers, 5) && half_agree(headers, 6) && half_agree(headers, 7) && 10
                * cookies > 3 * headers.len();
            &&& looks ==> inferred(headers) == Some(
                Shape::StunBinding(2 * cookies > headers.len()),
            )
            &&& !looks ==> !(inferred(headers) matches Some(Shape::StunBinding(_)))
        }),
{
    lemma_longest_reached(headers, 8);
    lemma_half_agree(headers, 4);
    lemma_half_agree(headers, 5);
    lemma_half_agree(headers, 6);
    lemma_half_agree(headers, 7);
    lemma_count_with(headers, 8, 4, 0x21);
    let wide = |h: Seq<u8>| h.len() >= 8nat && h[4nat as int] == 0x21u8;
    let exact = |h: Seq<u8>| h.len() >= 8 && h[4] == 0x21;
    assert(wide =~= exact);
    let cookies = count_with(headers, 8, 4, 0x21);
    law_share_threshold(cookies, headers.len(), 3, 10);
    law_share_threshold(cookies, headers.len(), 1, 2);
}

/// Headers that are not taken for STUN are taken for QUIC exactly if the first byte of more
/// than half of them has the high half `0xC`, the mark of a long header, and more than half
/// have one and the same byte behind it; whatever the low half of the first byte is.
pub proof fn law_quic_goes_by_counts(headers: Seq<Seq<u8>>)
    requires
        0 < headers.len() < 0x40_0000,
        exists|k: int| 0 <= k < headers.len() && (#[trigger] headers[k]).len() >= 4,
        !(inferred(headers) matches Some(Shape::StunBinding(_))),
    ensures
        ({
            let long_headers = headers.filter(|h: Seq<u8>| h.len() > 0 && h[0] / 16 == 12).len();
            let looks = 2 * long_headers > headers.len() && half_agree(headers, 1);
            &&& looks ==> inferred(headers) == Some(Shape::QuicInitial(1, 8))
            &&& !looks ==> !(inferred(headers) matches Some(Shape::QuicInitial(_, _)))
        }),
{
    lemma_longest_reached(headers, 4);
    lemma_half_agree(headers, 1);
    lemma_count_first(headers, 0xC0, 0xCF);
    let between = |h: Seq<u8>| h.len() > 0 && 0xC0u8 <= h[0] && h[0] <= 0xCFu8;
    let exact = |h: Seq<u8>| h.len() > 0 && h[0] / 16 == 12;
    assert(between =~= exact);
    law_share_threshold(count_first_between(headers, 0xC0, 0xCF), headers.len(), 1, 2);
}

/// Headers that are taken neither for STUN nor for QUIC are taken for DNS exactly if more
/// than half agree at each of the positions two and three, and more than three tenths have
/// a one at position two.
pub proof fn law_dns_goes_by_counts(headers: Seq<Seq<u8>>)
    requires
        0 < headers.len() < 838861,
        exists|k: int| 0 <= k < headers.len() && (#[trigger] headers[k]).len() >= 4,
        !(inferred(headers) matches Some(Shape::StunBinding(_))),
        !(inferred(headers) matches Some(Shape::QuicInitial(_, _))),
    ensures
        ({
            let looks = half_agree(headers, 2) && half_agree(headers, 3) && 10 * having(
                headers,
                2,
                1,
            ) > 3 * headers.len();
            &&& looks ==> inferred(headers) == Some(Shape::DnsQuery(0x0100))
            &&& !looks ==> !(inferred(headers) matches Some(Shape::DnsQuery(_)))
        }),
{
    lemma_longest_reached(headers, 4);
    lemma_half_agree(headers, 2);
    lemma_half_agree(headers, 3);
    lemma_count_at(headers, 2, 1);
    law_share_threshold(count_at(headers, 2, 1), headers.len(), 3, 10);
}

/// Headers that are taken for none of STUN, QUIC and DNS are taken for TLS exactly if the
/// first byte of more than half of them is a content type from 20 to 23, and more than half
/// have the same first byte; for application data if 23 is more frequent than 22, and for a
/// handshake otherwise.
pub proof fn law_tls_goes_by_counts(headers: Seq<Seq<u8>>)
    requires
        0 < headers.len() < 0x40_0000,
        exists|k: int| 0 <= k < headers.len() && (#[trigger] headers[k]).len() >= 4,
        !(inferred(headers) matches Some(Shape::StunBinding(_))),
        !(inferred(headers) matches Some(Shape::QuicInitial(_, _))),
        !(inferred(headers) matches Some(Shape::DnsQuery(_))),
    ensures
        ({
            let records = headers.filter(
                |h: Seq<u8>| h.len() > 0 && (h[0] == 20 || h[0] == 21 || h[0] == 22 || h[0] == 23),
            ).len();
            let looks = 2 * records > headers.len() && half_agree(headers, 0);
            &&& looks && having(headers, 0, 23) > having(headers, 0, 22) ==> inferred(headers)
                == Some(Shape::TlsRecord(23, 0x0303))
            &&& looks && having(headers, 0, 23) <= having(headers, 0, 22) ==> inferred(headers)
                == Some(Shape::TlsRecord(22, 0x0303))
            &&& !looks ==> !(inferred(headers) matches Some(Shape::TlsRecord(_, _)))
        }),
{
    lemma_longest_reached(headers, 4);
    lemma_half_agree(headers, 0);
    lemma_count_at(headers, 0, 22);
    lemma_count_at(headers, 0, 23);
    lemma_count_first(headers, 0x14, 0x17);
    let between = |h: Seq<u8>| h.len() > 0 && 0x14u8 <= h[0] && h[0] <= 0x17u8;
    let exact = |h: Seq<u8>|
        h.len() > 0 && (h[0] == 20 || h[0] == 21 || h[0] == 22 || h[0] == 23);
    assert(between =~= exact);
    law_share_threshold(count_first_between(headers, 0x14, 0x17), headers.len(), 1, 2);
}

/// A position among the first twenty that some header reaches beyond, and at which no byte
/// stands in seven tenths of the headers.
pub open spec fn is_open(headers: Seq<Seq<u8>>, position: int) -> bool {
    &&& 0 <= position < 20
    &&& exists|k: int| 0 <= k < headers.len() && (#[trigger] headers[k]).len() > position
    &&& forall|byte: u8| 10 * #[trigger] having(headers, position, byte) < 7 * headers.len()
}

/// Headers that are taken for no known protocol are described by the first one, if there are
/// four or more: with exactly those positions left open, in ascending order, at which too few
/// agree. Where there is no such position, or the first header has no more bytes than there
/// are such positions, nothing is inferred.
pub proof fn law_raw_prefix_goes_by_counts(headers: Seq<Seq<u8>>)
    requires
        0 < headers.len() < 838861,
        !(inferred(headers) matches Some(Shape::StunBinding(_))),
        !(inferred(headers) matches Some(Shape::QuicInitial(_, _))),
        !(inferred(headers) matches Some(Shape::DnsQuery(_))),
        !(inferred(headers) matches Some(Shape::TlsRecord(_, _))),
    ensures
        headers.len() < 4 ==> inferred(headers) is None,
        inferred(headers) matches Some(Shape::RawPrefix(text, indices)) ==> {
            &&& text == hex_text(headers[0])
            &&& 0 < indices.len() < headers[0].len()
            &&& forall|p: usize| #[trigger] indices.contains(p) <==> is_open(headers, p as int)
            &&& forall|i: int, j: int| 0 <= i < j < indices.len() ==> indices[i] < indices[j]
        },
        inferred(headers) is None && headers.len() >= 4 && (exists|k: int|
            0 <= k < headers.len() && (#[trigger] headers[k]).len() >= 4) ==> (forall|p: int|
            !#[trigger] is_open(headers, p)) || Seq::new(20, |p: int| p).filter(
            |p: int| is_open(headers, p),
        ).len() >= headers[0].len(),
{
    let n = at_most(longest(headers), 20);
    let loose = loose_positions(headers, n);
    lemma_longest_reached(headers, 4);
    assert forall|p: usize| #[trigger] loose.contains(p) <==> is_open(headers, p as int) by {
        lemma_loose_exact(headers, n, p);
        lemma_longest_reached(headers, (p + 1) as nat);
        if p < 20 {
            lemma_agree_counted(headers, p as nat, 7, 10);
            lemma_open_counted(headers, p as int);
        }
    }
    lemma_loose_ascending(headers, n);
    if inferred(headers) is None && headers.len() >= 4 && longest(headers) >= 4 {
        if loose.len() == 0 {
            assert forall|p: int| !#[trigger] is_open(headers, p) by {
                if is_open(headers, p) {
                    assert(loose.contains(p as usize));
                }
            }
        } else {
            lemma_loose_filtered(headers, n);
            lemma_open_beyond(headers, n, 20);
            assert(Seq::new(20nat, |p: int| p) =~= Seq::new(20, |p: int| p));
        }
    }
}

/// Being below seven tenths with every byte, in two ways of writing it.
proof fn lemma_open_counted(headers: Seq<Seq<u8>>, position: int)
    ensures
        (forall|byte: u8| #[trigger]
            having(headers, position, byte) * 10 < 7 * headers.len()) <==> (forall|byte: u8|
            10 * #[trigger] having(headers, position, byte) < 7 * headers.len()),
{
    if forall|byte: u8| #[trigger] having(headers, position, byte) * 10 < 7 * headers.len() {
        assert forall|byte: u8| 10 * #[trigger] having(headers, position, byte) < 7
            * headers.len() by {
            assert(having(headers, position, byte) * 10 < 7 * headers.len());
        }
    }
    if forall|byte: u8| 10 * #[trigger] having(headers, position, byte) < 7 * headers.len() {
        assert forall|byte: u8| #[trigger] having(headers, position, byte) * 10 < 7
            * headers.len() by {
            assert(10 * having(headers, position, byte) < 7 * headers.len());
        }
    }
}

/// Loose positions are listed in ascending order.
proof fn lemma_loose_ascending(headers: Seq<Seq<u8>>, n: nat)
    requires
        n <= 20,
    ensures
        forall|i: int|
            0 <= i < loose_positions(headers, n).len() ==> #[trigger] loose_positions(
                headers,
                n,
            )[i] < n,
        forall|i: int, j: int|
            0 <= i < j < loose_positions(headers, n).len() ==> loose_positions(headers, n)[i]
                < loose_positions(headers, n)[j],
    decreases n,
{
    if n > 0 {
        let before = loose_positions(headers, (n - 1) as nat);
        lemma_loose_ascending(headers, (n - 1) as nat);
        assert forall|i: int| 0 <= i < before.len() implies #[trigger] before[i] < n - 1 by {
            assert(loose_positions(headers, (n - 1) as nat)[i] < n - 1);
        }
        assert(loose_positions(headers, n) == before || loose_positions(headers, n) == before.push(
            (n - 1) as usize,
        ));
    }
}

/// There are as many loose positions as positions that pass the test.
proof fn lemma_loose_filtered(headers: Seq<Seq<u8>>, n: nat)
    requires
        0 < headers.len() < 838861,
        n <= 20,
        n <= longest(headers),
    ensures
        loose_positions(headers, n).len() == Seq::new(n, |p: int| p).filter(
            |p: int| is_open(headers, p),
        ).len(),
    decreases n,
{
    reveal(Seq::filter);
    if n > 0 {
        let i = (n - 1) as nat;
        lemma_loose_filtered(headers, i);
        assert(Seq::new(n, |p: int| p).drop_last() =~= Seq::new(i, |p: int| p));
        assert(Seq::new(n, |p: int| p).last() == i);
        lemma_longest_reached(headers, n);
        lemma_agree_counted(headers, i, 7, 10);
        lemma_open_counted(headers, i as int);
        assert(is_open(headers, i as int) <==> less(consistency(headers, i), fraction(7, 10))) by {
            let k = choose|k: int| 0 <= k < headers.len() && (#[trigger] headers[k]).len() >= n;
            assert(headers[k].len() > i);
        }
    }
}

/// No position that all headers end before is open.
proof fn lemma_open_beyond(headers: Seq<Seq<u8>>, n: nat, m: nat)
    requires
        n <= m <= 20,
        n == longest(headers) || n == m,
    ensures
        Seq::new(m, |p: int| p).filter(|p: int| is_open(headers, p)).len() == Seq::new(
            n,
            |p: int| p,
        ).filter(|p: int| is_open(headers, p)).len(),
    decreases m,
{
    reveal(Seq::filter);
    if n < m {
        let i = (m - 1) as nat;
        lemma_open_beyond(headers, n, i);
        assert(Seq::new(m, |p: int| p).drop_last() =~= Seq::new(i, |p: int| p));
        assert(Seq::new(m, |p: int| p).last() == i);
        lemma_longest_reached(headers, m);
        assert(!is_open(headers, i as int)) by {
            if is_open(headers, i as int) {
                let k = choose|k: int| 0 <= k < headers.len() && (#[trigger] headers[k]).len() > i;
                assert(headers[k].len() >= m);
            }
        }
    }
}

/// No header is counted for two bytes at one position.
proof fn lemma_counted_once(headers: Seq<Seq<u8>>, position: nat, a: u8, b: u8)
    requires
        a != b,
    ensures
        count_at(headers, position, a) + count_at(headers, position, b) <= headers.len(),
    decreases headers.len(),
{
    if headers.len() > 0 {
        lemma_counted_once(headers.drop_last(), position, a, b);
    }
}

/// The consensus has a byte of the headers wherever more than seven tenths of them have it,
/// and a drawn byte wherever no byte stands in more than seven tenths; without any headers
/// it is eight zero bytes.
pub proof fn law_consensus_goes_by_counts(
    headers: Seq<Seq<u8>>,
    draws: Seq<u8>,
    position: int,
    byte: u8,
)
    requires
        headers.len() < 838861,
    ensures
        headers.len() == 0 ==> consensus(headers, draws) == seq![0u8, 0, 0, 0, 0, 0, 0, 0],
        headers.len() > 0 && 0 <= position < consensus(headers, draws).len() ==> {
            &&& 10 * having(headers, position, byte) > 7 * headers.len() ==> consensus(
                headers,
                draws,
            )[position] == byte
            &&& (forall|b: u8| 10 * #[trigger] having(headers, position, b) <= 7 * headers.len())
                ==> consensus(headers, draws)[position] == draws[position]
        },
{
    if headers.len() == 0 {
        assert(consensus(headers, draws) =~= seq![0u8, 0, 0, 0, 0, 0, 0, 0]);
    } else if 0 <= position < consensus(headers, draws).len() {
        let top = top_byte(headers, position as nat);
        law_consensus_is_majority(headers, draws, position);
        lemma_count_at(headers, position as nat, byte);
        lemma_count_at(headers, position as nat, top);
        law_top_byte(headers, position as nat, byte);
        if byte != top {
            lemma_counted_once(headers, position as nat, byte, top);
        }
        assert(having(headers, position, top) == top_count(headers, position as nat));
    }
}

/// The consensus is as long as the shortest header, but no longer than sixteen bytes.
pub proof fn law_consensus_has_common_length(headers: Seq<Seq<u8>>, draws: Seq<u8>)
    requires
        headers.len() > 0,
    ensures
        consensus(headers, draws).len() <= 16,
        forall|k: int|
            0 <= k < headers.len() ==> consensus(headers, draws).len() <= (
            #[trigger] headers[k]).len(),
        consensus(headers, draws).len() == 16 || exists|k: int|
            0 <= k < headers.len() && (#[trigger] headers[k]).len() == consensus(
                headers,
                draws,
            ).len(),
{
    lemma_shortest(headers);
}

/// The shortest header is a header, and no header is shorter.
proof fn lemma_shortest(headers: Seq<Seq<u8>>)
    requires
        headers.len() > 0,
    ensures
        forall|k: int|
            0 <= k < headers.len() ==> shortest(headers) <= (#[trigger] headers[k]).len(),
        exists|k: int|
            0 <= k < headers.len() && (#[trigger] headers[k]).len() == shortest(headers),
    decreases headers.len(),
{
    assert(headers[headers.len() - 1] == headers.last());
    if headers.len() > 1 {
        let front = headers.drop_last();
        lemma_shortest(front);
        assert forall|k: int| 0 <= k < headers.len() implies shortest(headers) <= (
        #[trigger] headers[k]).len() by {
            if k < front.len() {
                assert(front[k] == headers[k]);
            }
        }
        let k = choose|k: int|
            0 <= k < front.len() && (#[trigger] front[k]).len() == shortest(front);
        assert(headers[k] == front[k]);
    }
}

} // verus!
