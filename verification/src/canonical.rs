//! The canonical bytes of mask profiles, over which they are signed.
//!
//! Every part of a profile gives bytes from which it can be read back, whatever bytes
//! follow: numbers have a fixed length, everything of variable length starts with its
//! size, and every choice starts with a byte that names it.
use crate::header::{
    encode_semantic_u64, encoded, field_models, law_encoding_keeps_low_bytes, Field, HeaderEndian,
    HeaderField, HeaderSpec, IdFieldMode, Spec,
};
use crate::mask::{
    state_models, Arrivals, FSMState, FSMTransition, IATDistType, IATDistribution, MaskProfile,
    PaddingStrategy, ParametricType, Profile, SizeDistType, SizeDistribution, Sizes, SpoofProtocol,
    State, Transition, TransitionCondition,
};
use vstd::arithmetic::div_mod::lemma_small_mod;
use vstd::arithmetic::power::{lemma_pow1, lemma_pow_adds, pow};
use vstd::prelude::*;
use vstd::utf8::{encode_utf8, encode_utf8_decode_utf8};

verus! {

/// The bytes of a number: eight, lowest first.
pub open spec fn number_bytes(n: u64) -> Seq<u8> {
    encoded(n, 8, HeaderEndian::Little)
}

/// The bytes of a size: seven bits each, lowest first; all but the last have the highest
/// bit set.
pub open spec fn size_bytes(n: nat) -> Seq<u8>
    decreases n,
{
    if n < 128 {
        seq![n as u8]
    } else {
        seq![(128 + n % 128) as u8] + size_bytes(n / 128)
    }
}

/// Bytes, with their number in front.
pub open spec fn block_bytes(bytes: Seq<u8>) -> Seq<u8> {
    size_bytes(bytes.len()) + bytes
}

/// The bytes of a text.
pub open spec fn text_bytes(text: Seq<char>) -> Seq<u8> {
    block_bytes(encode_utf8(text))
}

/// The bytes of items, one after the other.
pub open spec fn listed<T>(items: Seq<T>, part: spec_fn(T) -> Seq<u8>) -> Seq<u8>
    decreases items.len(),
{
    if items.len() == 0 {
        Seq::empty()
    } else {
        listed(items.drop_last(), part) + part(items.last())
    }
}

/// The bytes of a list: the number of its items, then the items.
pub open spec fn list_bytes<T>(items: Seq<T>, part: spec_fn(T) -> Seq<u8>) -> Seq<u8> {
    size_bytes(items.len()) + listed(items, part)
}

/// The bytes of what may be missing.
pub open spec fn option_bytes<T>(item: Option<T>, part: spec_fn(T) -> Seq<u8>) -> Seq<u8> {
    match item {
        None => seq![0u8],
        Some(x) => seq![1u8] + part(x),
    }
}

/// The bytes of a 64-bit number.
pub open spec fn word() -> spec_fn(u64) -> Seq<u8> {
    |n: u64| number_bytes(n)
}

/// The bytes of a 32-bit number.
pub open spec fn half_word() -> spec_fn(u32) -> Seq<u8> {
    |n: u32| number_bytes(n as u64)
}

/// The bytes of a position.
pub open spec fn position() -> spec_fn(usize) -> Seq<u8> {
    |n: usize| number_bytes(n as u64)
}

/// The bytes of a bin.
pub open spec fn bin() -> spec_fn((u16, u16, u32)) -> Seq<u8> {
    |b: (u16, u16, u32)|
        number_bytes(b.0 as u64) + number_bytes(b.1 as u64) + number_bytes(b.2 as u64)
}

/// The byte that names a protocol.
pub open spec fn protocol_tag(protocol: SpoofProtocol) -> u8 {
    match protocol {
        SpoofProtocol::Unspoofed => 0,
        SpoofProtocol::QUIC => 1,
        SpoofProtocol::WebRTC_STUN => 2,
        SpoofProtocol::HTTPS_H2 => 3,
        SpoofProtocol::DNS_over_UDP => 4,
    }
}

/// The byte that names a kind of size distribution.
pub open spec fn size_tag(kind: SizeDistType) -> u8 {
    match kind {
        SizeDistType::Histogram => 0,
        SizeDistType::Parametric => 1,
    }
}

/// The byte that names a family of curves.
pub open spec fn family() -> spec_fn(ParametricType) -> Seq<u8> {
    |kind: ParametricType|
        seq![
            match kind {
                ParametricType::LogNormal => 0u8,
                ParametricType::Gamma => 1,
                ParametricType::Bimodal => 2,
            },
        ]
}

/// The byte that names a kind of distribution of inter-arrival times.
pub open spec fn time_tag(kind: IATDistType) -> u8 {
    match kind {
        IATDistType::Exponential => 0,
        IATDistType::LogNormal => 1,
        IATDistType::Gamma => 2,
        IATDistType::Empirical => 3,
    }
}

/// The byte that names a byte order.
pub open spec fn endian_tag(endian: HeaderEndian) -> u8 {
    match endian {
        HeaderEndian::Big => 0,
        HeaderEndian::Little => 1,
    }
}

/// The byte that names how an identifier is filled.
pub open spec fn mode_tag(mode: IdFieldMode) -> u8 {
    match mode {
        IdFieldMode::Random => 0,
        IdFieldMode::Zero => 1,
    }
}

/// The bytes of a list of 64-bit numbers.
pub open spec fn words() -> spec_fn(Seq<u64>) -> Seq<u8> {
    |list: Seq<u64>| list_bytes(list, word())
}

/// The bytes of a size distribution.
pub open spec fn sizes() -> spec_fn(Sizes) -> Seq<u8> {
    |s: Sizes|
        seq![size_tag(s.dist_type)] + list_bytes(s.bins, bin()) + option_bytes(
            s.parametric_type,
            family(),
        ) + option_bytes(s.parametric_params, words())
}

/// The bytes of a distribution of inter-arrival times.
pub open spec fn arrivals() -> spec_fn(Arrivals) -> Seq<u8> {
    |a: Arrivals|
        seq![time_tag(a.dist_type)] + list_bytes(a.params, word()) + number_bytes(
            a.jitter_range_ms.0,
        ) + number_bytes(a.jitter_range_ms.1)
}

/// The bytes of a padding strategy.
pub open spec fn padding() -> spec_fn(PaddingStrategy) -> Seq<u8> {
    |p: PaddingStrategy|
        match p {
            PaddingStrategy::RandomUniform { min, max } => seq![0u8] + number_bytes(min as u64)
                + number_bytes(max as u64),
            PaddingStrategy::MatchDistribution => seq![1u8],
            PaddingStrategy::Fixed { size } => seq![2u8] + number_bytes(size as u64),
        }
}

/// The bytes of a condition.
pub open spec fn condition_bytes(c: TransitionCondition) -> Seq<u8> {
    match c {
        TransitionCondition::AfterPackets(n) => seq![0u8] + number_bytes(n as u64),
        TransitionCondition::AfterDuration(ms) => seq![1u8] + number_bytes(ms),
        TransitionCondition::OnPayloadType(t) => seq![2u8] + number_bytes(t as u64),
        TransitionCondition::Random(p) => seq![3u8] + number_bytes(p as u64),
    }
}

/// The bytes of a transition.
pub open spec fn transition() -> spec_fn(Transition) -> Seq<u8> {
    |t: Transition|
        condition_bytes(t.condition) + number_bytes(t.next_state as u64) + option_bytes(
            t.size_override,
            sizes(),
        ) + option_bytes(t.iat_override, arrivals()) + option_bytes(t.padding_override, padding())
}

/// The bytes of a state.
pub open spec fn state() -> spec_fn(State) -> Seq<u8> {
    |s: State| number_bytes(s.state_id as u64) + list_bytes(s.transitions, transition())
}

/// The bytes of a header field.
pub open spec fn field() -> spec_fn(Field) -> Seq<u8> {
    |f: Field|
        match f {
            Field::Fixed(bytes) => seq![0u8] + block_bytes(bytes),
            Field::Random(len) => seq![1u8] + number_bytes(len as u64),
            Field::Length(len, endian) => seq![2u8, endian_tag(endian)] + number_bytes(len as u64),
            Field::Id(len, mode) => seq![3u8, mode_tag(mode)] + number_bytes(len as u64),
            Field::CounterLike(len, endian, start, step) => seq![4u8, endian_tag(endian)]
                + number_bytes(len as u64) + number_bytes(start) + number_bytes(step),
        }
}

/// The bytes of a header specification.
pub open spec fn header_spec() -> spec_fn(Spec) -> Seq<u8> {
    |s: Spec|
        match s {
            Spec::Structured(fields) => seq![0u8] + list_bytes(fields, field()),
            Spec::RawPrefix(prefix_hex, indices) => seq![1u8] + text_bytes(prefix_hex)
                + list_bytes(indices, position()),
        }
}

/// The bytes of what identifies a mask and of how its header looks to old clients.
#[verifier::opaque]
pub open spec fn head_bytes(p: Profile) -> Seq<u8> {
    text_bytes(p.mask_id) + number_bytes(p.version as u64) + number_bytes(p.created_at)
        + number_bytes(p.expires_at) + seq![protocol_tag(p.spoof_protocol)] + block_bytes(
        p.header_template,
    ) + number_bytes(p.eph_pub_offset as u64) + number_bytes(p.eph_pub_length as u64)
}

/// The bytes of how a mask shapes traffic.
#[verifier::opaque]
pub open spec fn shape_bytes(p: Profile) -> Seq<u8> {
    sizes()(p.size_distribution) + arrivals()(p.iat_distribution) + padding()(p.padding_strategy)
        + list_bytes(p.fsm_states, state()) + number_bytes(p.fsm_initial_state as u64) + list_bytes(
        p.signature_vector,
        half_word(),
    ) + option_bytes(p.header_spec, header_spec())
}

/// The message that the signature of a profile covers: all of the profile but the
/// signature itself. The profile for the other direction is part of it, together with
/// its own signature.
pub open spec fn signed_bytes(p: Profile) -> Seq<u8>
    decreases p,
{
    head_bytes(p) + shape_bytes(p) + (match p.reverse_profile {
        None => seq![0u8],
        Some(q) => seq![1u8] + signed_bytes(*q) + block_bytes(q.signature),
    })
}

/// Parts of one length in front of a rest.
proof fn lemma_cut(a: Seq<u8>, s: Seq<u8>, b: Seq<u8>, t: Seq<u8>)
    requires
        a.len() == b.len(),
        a + s == b + t,
    ensures
        a == b,
        s == t,
{
    let n = a.len() as int;
    assert((a + s).take(n) =~= a);
    assert((b + t).take(n) =~= b);
    assert((a + s).skip(n) =~= s);
    assert((b + t).skip(n) =~= t);
}

/// Parts one after the other, joined from the end.
proof fn lemma_join3(a: Seq<u8>, b: Seq<u8>, c: Seq<u8>, s: Seq<u8>)
    ensures
        a + b + c + s == a + (b + (c + s)),
        s + (a + b + c) == s + a + b + c,
{
    assert(a + b + c + s =~= a + (b + (c + s)));
    assert(s + (a + b + c) =~= s + a + b + c);
}

/// Parts one after the other, joined from the end.
proof fn lemma_join4(a: Seq<u8>, b: Seq<u8>, c: Seq<u8>, d: Seq<u8>, s: Seq<u8>)
    ensures
        a + b + c + d + s == a + (b + (c + (d + s))),
        s + (a + b + c + d) == s + a + b + c + d,
{
    assert(a + b + c + d + s =~= a + (b + (c + (d + s))));
    assert(s + (a + b + c + d) =~= s + a + b + c + d);
}

/// Parts one after the other, joined from the end.
proof fn lemma_join5(a: Seq<u8>, b: Seq<u8>, c: Seq<u8>, d: Seq<u8>, e: Seq<u8>, s: Seq<u8>)
    ensures
        a + b + c + d + e + s == a + (b + (c + (d + (e + s)))),
        s + (a + b + c + d + e) == s + a + b + c + d + e,
{
    assert(a + b + c + d + e + s =~= a + (b + (c + (d + (e + s)))));
    assert(s + (a + b + c + d + e) =~= s + a + b + c + d + e);
}

/// Parts one after the other, joined from the end.
proof fn lemma_join7(
    a: Seq<u8>,
    b: Seq<u8>,
    c: Seq<u8>,
    d: Seq<u8>,
    e: Seq<u8>,
    f: Seq<u8>,
    g: Seq<u8>,
    s: Seq<u8>,
)
    ensures
        a + b + c + d + e + f + g + s == a + (b + (c + (d + (e + (f + (g + s)))))),
        s + (a + b + c + d + e + f + g) == s + a + b + c + d + e + f + g,
{
    assert(a + b + c + d + e + f + g + s =~= a + (b + (c + (d + (e + (f + (g + s)))))));
    assert(s + (a + b + c + d + e + f + g) =~= s + a + b + c + d + e + f + g);
}

/// Parts one after the other, joined from the end.
proof fn lemma_join8(
    a: Seq<u8>,
    b: Seq<u8>,
    c: Seq<u8>,
    d: Seq<u8>,
    e: Seq<u8>,
    f: Seq<u8>,
    g: Seq<u8>,
    h: Seq<u8>,
    s: Seq<u8>,
)
    ensures
        a + b + c + d + e + f + g + h + s == a + (b + (c + (d + (e + (f + (g + (h + s))))))),
        s + (a + b + c + d + e + f + g + h) == s + a + b + c + d + e + f + g + h,
{
    assert(a + b + c + d + e + f + g + h + s =~= a + (b + (c + (d + (e + (f + (g + (h + s))))))));
    assert(s + (a + b + c + d + e + f + g + h) =~= s + a + b + c + d + e + f + g + h);
}

/// A number in front of a rest.
proof fn lemma_number(a: u64, s: Seq<u8>, b: u64, t: Seq<u8>)
    requires
        number_bytes(a) + s == number_bytes(b) + t,
    ensures
        a == b,
        s == t,
{
    lemma_cut(number_bytes(a), s, number_bytes(b), t);
    law_encoding_keeps_low_bytes(a, 8);
    law_encoding_keeps_low_bytes(b, 8);
    lemma_pow1(256);
    lemma_pow_adds(256, 1, 1);
    lemma_pow_adds(256, 2, 2);
    lemma_pow_adds(256, 4, 4);
    let (p, q, r) = (pow(256, 2), pow(256, 4), pow(256, 8));
    assert(p == 0x1_0000);
    assert(q == 0x1_0000_0000) by (nonlinear_arith)
        requires
            q == p * p,
            p == 0x1_0000,
    ;
    assert(r == 0x1_0000_0000_0000_0000) by (nonlinear_arith)
        requires
            r == q * q,
            q == 0x1_0000_0000,
    ;
    lemma_small_mod(a as nat, r as nat);
    lemma_small_mod(b as nat, r as nat);
}

/// A size in front of a rest.
proof fn lemma_size(a: nat, s: Seq<u8>, b: nat, t: Seq<u8>)
    requires
        size_bytes(a) + s == size_bytes(b) + t,
    ensures
        a == b,
        s == t,
    decreases a,
{
    let (x, y) = (size_bytes(a) + s, size_bytes(b) + t);
    assert(x[0] == y[0]);
    assert(x[0] == size_bytes(a)[0] && y[0] == size_bytes(b)[0]);
    if a < 128 {
        assert(b < 128);
        lemma_cut(size_bytes(a), s, size_bytes(b), t);
    } else {
        assert(b >= 128);
        assert(x.skip(1) =~= size_bytes(a / 128) + s);
        assert(y.skip(1) =~= size_bytes(b / 128) + t);
        lemma_size(a / 128, s, b / 128, t);
    }
}

/// Bytes with their number in front of a rest.
proof fn lemma_block(a: Seq<u8>, s: Seq<u8>, b: Seq<u8>, t: Seq<u8>)
    requires
        block_bytes(a) + s == block_bytes(b) + t,
    ensures
        a == b,
        s == t,
{
    assert(block_bytes(a) + s =~= size_bytes(a.len()) + (a + s));
    assert(block_bytes(b) + t =~= size_bytes(b.len()) + (b + t));
    lemma_size(a.len(), a + s, b.len(), b + t);
    lemma_cut(a, s, b, t);
}

/// A text in front of a rest.
proof fn lemma_text(a: Seq<char>, s: Seq<u8>, b: Seq<char>, t: Seq<u8>)
    requires
        text_bytes(a) + s == text_bytes(b) + t,
    ensures
        a == b,
        s == t,
{
    lemma_block(encode_utf8(a), s, encode_utf8(b), t);
    encode_utf8_decode_utf8(a);
    encode_utf8_decode_utf8(b);
}

/// Parts that can be read back, whatever bytes follow.
#[verifier::opaque]
pub open spec fn separable<T>(part: spec_fn(T) -> Seq<u8>) -> bool {
    forall|a: T, s: Seq<u8>, b: T, t: Seq<u8>| #[trigger]
        (part(a) + s) == #[trigger] (part(b) + t) ==> a == b && s == t
}

/// Items one after the other in front of a rest.
proof fn lemma_listed<T>(
    part: spec_fn(T) -> Seq<u8>,
    a: Seq<T>,
    s: Seq<u8>,
    b: Seq<T>,
    t: Seq<u8>,
)
    requires
        separable(part),
        a.len() == b.len(),
        listed(a, part) + s == listed(b, part) + t,
    ensures
        a == b,
        s == t,
    decreases a.len(),
{
    if a.len() == 0 {
        assert(listed(a, part) + s =~= s);
        assert(listed(b, part) + t =~= t);
        assert(a =~= b);
    } else {
        reveal(separable);
        let (x, y) = (part(a.last()) + s, part(b.last()) + t);
        assert(listed(a, part) + s =~= listed(a.drop_last(), part) + x);
        assert(listed(b, part) + t =~= listed(b.drop_last(), part) + y);
        lemma_listed(part, a.drop_last(), x, b.drop_last(), y);
        assert(a =~= a.drop_last().push(a.last()));
        assert(b =~= b.drop_last().push(b.last()));
    }
}

/// A list in front of a rest.
proof fn lemma_list<T>(
    part: spec_fn(T) -> Seq<u8>,
    a: Seq<T>,
    s: Seq<u8>,
    b: Seq<T>,
    t: Seq<u8>,
)
    requires
        separable(part),
        list_bytes(a, part) + s == list_bytes(b, part) + t,
    ensures
        a == b,
        s == t,
{
    assert(list_bytes(a, part) + s =~= size_bytes(a.len()) + (listed(a, part) + s));
    assert(list_bytes(b, part) + t =~= size_bytes(b.len()) + (listed(b, part) + t));
    lemma_size(a.len(), listed(a, part) + s, b.len(), listed(b, part) + t);
    lemma_listed(part, a, s, b, t);
}

/// What may be missing, in front of a rest.
proof fn lemma_option<T>(
    part: spec_fn(T) -> Seq<u8>,
    a: Option<T>,
    s: Seq<u8>,
    b: Option<T>,
    t: Seq<u8>,
)
    requires
        separable(part),
        option_bytes(a, part) + s == option_bytes(b, part) + t,
    ensures
        a == b,
        s == t,
{
    let (x, y) = (option_bytes(a, part) + s, option_bytes(b, part) + t);
    assert(x[0] == option_bytes(a, part)[0] && y[0] == option_bytes(b, part)[0]);
    match (a, b) {
        (Some(u), Some(v)) => {
            reveal(separable);
            assert(x.skip(1) =~= part(u) + s);
            assert(y.skip(1) =~= part(v) + t);
        },
        (None, None) => {
            lemma_cut(seq![0u8], s, seq![0u8], t);
        },
        _ => {},
    }
}

/// The numbers can be read back.
proof fn lemma_numbers()
    ensures
        separable(word()),
        separable(half_word()),
        separable(position()),
        separable(bin()),
        separable(family()),
        separable(words()),
{
    assert(separable(word())) by {
        reveal(separable);
        assert forall|a: u64, s: Seq<u8>, b: u64, t: Seq<u8>| #[trigger]
            (word()(a) + s) == #[trigger] (word()(b) + t) implies a == b && s == t by {
            lemma_number(a, s, b, t);
        }
    }
    assert(separable(half_word())) by {
        reveal(separable);
        assert forall|a: u32, s: Seq<u8>, b: u32, t: Seq<u8>| #[trigger]
            (half_word()(a) + s) == #[trigger] (half_word()(b) + t) implies a == b && s == t by {
            lemma_number(a as u64, s, b as u64, t);
        }
    }
    assert(separable(position())) by {
        reveal(separable);
        assert forall|a: usize, s: Seq<u8>, b: usize, t: Seq<u8>| #[trigger]
            (position()(a) + s) == #[trigger] (position()(b) + t) implies a == b && s == t by {
            lemma_number(a as u64, s, b as u64, t);
        }
    }
    assert(separable(bin())) by {
        reveal(separable);
        assert forall|a: (u16, u16, u32), s: Seq<u8>, b: (u16, u16, u32), t: Seq<u8>| #[trigger]
            (bin()(a) + s) == #[trigger] (bin()(b) + t) implies a == b && s == t by {
            let (a1, a2) = (number_bytes(a.1 as u64), number_bytes(a.2 as u64));
            let (b1, b2) = (number_bytes(b.1 as u64), number_bytes(b.2 as u64));
            assert(bin()(a) + s =~= number_bytes(a.0 as u64) + (a1 + (a2 + s)));
            assert(bin()(b) + t =~= number_bytes(b.0 as u64) + (b1 + (b2 + t)));
            lemma_number(a.0 as u64, a1 + (a2 + s), b.0 as u64, b1 + (b2 + t));
            lemma_number(a.1 as u64, a2 + s, b.1 as u64, b2 + t);
            lemma_number(a.2 as u64, s, b.2 as u64, t);
        }
    }
    assert(separable(family())) by {
        reveal(separable);
        assert forall|a: ParametricType, s: Seq<u8>, b: ParametricType, t: Seq<u8>| #[trigger]
            (family()(a) + s) == #[trigger] (family()(b) + t) implies a == b && s == t by {
            lemma_cut(family()(a), s, family()(b), t);
            assert(family()(a)[0] == family()(b)[0]);
        }
    }
    assert(separable(words())) by {
        reveal(separable);
        assert forall|a: Seq<u64>, s: Seq<u8>, b: Seq<u64>, t: Seq<u8>| #[trigger]
            (words()(a) + s) == #[trigger] (words()(b) + t) implies a == b && s == t by {
            lemma_list(word(), a, s, b, t);
        }
    }
}

/// Size distributions can be read back.
proof fn lemma_sizes(a: Sizes, s: Seq<u8>, b: Sizes, t: Seq<u8>)
    requires
        sizes()(a) + s == sizes()(b) + t,
    ensures
        a == b,
        s == t,
{
    lemma_numbers();
    let (ta, tb) = (seq![size_tag(a.dist_type)], seq![size_tag(b.dist_type)]);
    let (la, lb) = (list_bytes(a.bins, bin()), list_bytes(b.bins, bin()));
    let (fa, fb) = (
        option_bytes(a.parametric_type, family()),
        option_bytes(b.parametric_type, family()),
    );
    let (wa, wb) = (
        option_bytes(a.parametric_params, words()),
        option_bytes(b.parametric_params, words()),
    );
    lemma_join4(ta, la, fa, wa, s);
    lemma_join4(tb, lb, fb, wb, t);
    lemma_cut(ta, la + (fa + (wa + s)), tb, lb + (fb + (wb + t)));
    assert(ta[0] == tb[0]);
    lemma_list(bin(), a.bins, fa + (wa + s), b.bins, fb + (wb + t));
    lemma_option(family(), a.parametric_type, wa + s, b.parametric_type, wb + t);
    lemma_option(words(), a.parametric_params, s, b.parametric_params, t);
}

/// Distributions of inter-arrival times can be read back.
proof fn lemma_arrivals(a: Arrivals, s: Seq<u8>, b: Arrivals, t: Seq<u8>)
    requires
        arrivals()(a) + s == arrivals()(b) + t,
    ensures
        a == b,
        s == t,
{
    lemma_numbers();
    let (ta, tb) = (seq![time_tag(a.dist_type)], seq![time_tag(b.dist_type)]);
    let (la, lb) = (list_bytes(a.params, word()), list_bytes(b.params, word()));
    let (ja, jb) = (number_bytes(a.jitter_range_ms.0), number_bytes(b.jitter_range_ms.0));
    let (ka, kb) = (number_bytes(a.jitter_range_ms.1), number_bytes(b.jitter_range_ms.1));
    lemma_join4(ta, la, ja, ka, s);
    lemma_join4(tb, lb, jb, kb, t);
    lemma_cut(ta, la + (ja + (ka + s)), tb, lb + (jb + (kb + t)));
    assert(ta[0] == tb[0]);
    lemma_list(word(), a.params, ja + (ka + s), b.params, jb + (kb + t));
    lemma_number(a.jitter_range_ms.0, ka + s, b.jitter_range_ms.0, kb + t);
    lemma_number(a.jitter_range_ms.1, s, b.jitter_range_ms.1, t);
}

/// Padding strategies can be read back.
proof fn lemma_padding(a: PaddingStrategy, s: Seq<u8>, b: PaddingStrategy, t: Seq<u8>)
    requires
        padding()(a) + s == padding()(b) + t,
    ensures
        a == b,
        s == t,
{
    let (x, y) = (padding()(a) + s, padding()(b) + t);
    assert(x[0] == padding()(a)[0] && y[0] == padding()(b)[0]);
    match (a, b) {
        (
            PaddingStrategy::RandomUniform { min: m, max: n },
            PaddingStrategy::RandomUniform { min: u, max: v },
        ) => {
            let (p, q) = (number_bytes(n as u64) + s, number_bytes(v as u64) + t);
            assert(x.skip(1) =~= number_bytes(m as u64) + p);
            assert(y.skip(1) =~= number_bytes(u as u64) + q);
            lemma_number(m as u64, p, u as u64, q);
            lemma_number(n as u64, s, v as u64, t);
        },
        (PaddingStrategy::MatchDistribution, PaddingStrategy::MatchDistribution) => {
            lemma_cut(seq![1u8], s, seq![1u8], t);
        },
        (PaddingStrategy::Fixed { size: m }, PaddingStrategy::Fixed { size: u }) => {
            assert(x.skip(1) =~= number_bytes(m as u64) + s);
            assert(y.skip(1) =~= number_bytes(u as u64) + t);
            lemma_number(m as u64, s, u as u64, t);
        },
        _ => {},
    }
}

/// Conditions can be read back.
proof fn lemma_condition(a: TransitionCondition, s: Seq<u8>, b: TransitionCondition, t: Seq<u8>)
    requires
        condition_bytes(a) + s == condition_bytes(b) + t,
    ensures
        a == b,
        s == t,
{
    let m = match a {
        TransitionCondition::AfterPackets(n) => n as u64,
        TransitionCondition::AfterDuration(ms) => ms,
        TransitionCondition::OnPayloadType(k) => k as u64,
        TransitionCondition::Random(p) => p as u64,
    };
    let n = match b {
        TransitionCondition::AfterPackets(n) => n as u64,
        TransitionCondition::AfterDuration(ms) => ms,
        TransitionCondition::OnPayloadType(k) => k as u64,
        TransitionCondition::Random(p) => p as u64,
    };
    let (x, y) = (condition_bytes(a) + s, condition_bytes(b) + t);
    assert(x[0] == condition_bytes(a)[0] && y[0] == condition_bytes(b)[0]);
    assert(x.skip(1) =~= number_bytes(m) + s);
    assert(y.skip(1) =~= number_bytes(n) + t);
    lemma_number(m, s, n, t);
}

/// The parts of transitions can be read back.
proof fn lemma_overrides()
    ensures
        separable(sizes()),
        separable(arrivals()),
        separable(padding()),
{
    assert(separable(sizes())) by {
        reveal(separable);
        assert forall|a: Sizes, s: Seq<u8>, b: Sizes, t: Seq<u8>| #[trigger]
            (sizes()(a) + s) == #[trigger] (sizes()(b) + t) implies a == b && s == t by {
            lemma_sizes(a, s, b, t);
        }
    }
    assert(separable(arrivals())) by {
        reveal(separable);
        assert forall|a: Arrivals, s: Seq<u8>, b: Arrivals, t: Seq<u8>| #[trigger]
            (arrivals()(a) + s) == #[trigger] (arrivals()(b) + t) implies a == b && s == t by {
            lemma_arrivals(a, s, b, t);
        }
    }
    assert(separable(padding())) by {
        reveal(separable);
        assert forall|a: PaddingStrategy, s: Seq<u8>, b: PaddingStrategy, t: Seq<u8>| #[trigger]
            (padding()(a) + s) == #[trigger] (padding()(b) + t) implies a == b && s == t by {
            lemma_padding(a, s, b, t);
        }
    }
}

/// Transitions can be read back.
proof fn lemma_transition(a: Transition, s: Seq<u8>, b: Transition, t: Seq<u8>)
    requires
        transition()(a) + s == transition()(b) + t,
    ensures
        a == b,
        s == t,
{
    lemma_overrides();
    let (ca, cb) = (condition_bytes(a.condition), condition_bytes(b.condition));
    let (na, nb) = (number_bytes(a.next_state as u64), number_bytes(b.next_state as u64));
    let (sa, sb) = (option_bytes(a.size_override, sizes()), option_bytes(b.size_override, sizes()));
    let (ia, ib) = (
        option_bytes(a.iat_override, arrivals()),
        option_bytes(b.iat_override, arrivals()),
    );
    let (pa, pb) = (
        option_bytes(a.padding_override, padding()),
        option_bytes(b.padding_override, padding()),
    );
    lemma_join5(ca, na, sa, ia, pa, s);
    lemma_join5(cb, nb, sb, ib, pb, t);
    lemma_condition(
        a.condition,
        na + (sa + (ia + (pa + s))),
        b.condition,
        nb + (sb + (ib + (pb + t))),
    );
    lemma_number(
        a.next_state as u64,
        sa + (ia + (pa + s)),
        b.next_state as u64,
        sb + (ib + (pb + t)),
    );
    lemma_option(sizes(), a.size_override, ia + (pa + s), b.size_override, ib + (pb + t));
    lemma_option(arrivals(), a.iat_override, pa + s, b.iat_override, pb + t);
    lemma_option(padding(), a.padding_override, s, b.padding_override, t);
}

/// States can be read back.
proof fn lemma_state(a: State, s: Seq<u8>, b: State, t: Seq<u8>)
    requires
        state()(a) + s == state()(b) + t,
    ensures
        a == b,
        s == t,
{
    assert(separable(transition())) by {
        reveal(separable);
        assert forall|a: Transition, s: Seq<u8>, b: Transition, t: Seq<u8>| #[trigger]
            (transition()(a) + s) == #[trigger] (transition()(b) + t) implies a == b && s == t by {
            lemma_transition(a, s, b, t);
        }
    }
    let (la, lb) = (
        list_bytes(a.transitions, transition()),
        list_bytes(b.transitions, transition()),
    );
    assert(state()(a) + s =~= number_bytes(a.state_id as u64) + (la + s));
    assert(state()(b) + t =~= number_bytes(b.state_id as u64) + (lb + t));
    lemma_number(a.state_id as u64, la + s, b.state_id as u64, lb + t);
    lemma_list(transition(), a.transitions, s, b.transitions, t);
}

/// Header fields of one kind can be read back.
proof fn lemma_like_fields(a: Field, s: Seq<u8>, b: Field, t: Seq<u8>)
    requires
        field()(a) + s == field()(b) + t,
        a is Fixed && b is Fixed || a is Random && b is Random,
    ensures
        a == b,
        s == t,
{
    let (x, y) = (field()(a) + s, field()(b) + t);
    match (a, b) {
        (Field::Fixed(m), Field::Fixed(n)) => {
            assert(x.skip(1) =~= block_bytes(m) + s);
            assert(y.skip(1) =~= block_bytes(n) + t);
            lemma_block(m, s, n, t);
        },
        (Field::Random(m), Field::Random(n)) => {
            assert(x.skip(1) =~= number_bytes(m as u64) + s);
            assert(y.skip(1) =~= number_bytes(n as u64) + t);
            lemma_number(m as u64, s, n as u64, t);
        },
        _ => {},
    }
}

/// Header fields with a length and a second choice can be read back.
proof fn lemma_length_fields(a: Field, s: Seq<u8>, b: Field, t: Seq<u8>)
    requires
        field()(a) + s == field()(b) + t,
        a is Length && b is Length || a is Id && b is Id,
    ensures
        a == b,
        s == t,
{
    let (x, y) = (field()(a) + s, field()(b) + t);
    match (a, b) {
        (Field::Length(m, e), Field::Length(n, f)) => {
            assert(x[1] == endian_tag(e) && y[1] == endian_tag(f));
            assert(x.skip(2) =~= number_bytes(m as u64) + s);
            assert(y.skip(2) =~= number_bytes(n as u64) + t);
            lemma_number(m as u64, s, n as u64, t);
        },
        (Field::Id(m, e), Field::Id(n, f)) => {
            assert(x[1] == mode_tag(e) && y[1] == mode_tag(f));
            assert(x.skip(2) =~= number_bytes(m as u64) + s);
            assert(y.skip(2) =~= number_bytes(n as u64) + t);
            lemma_number(m as u64, s, n as u64, t);
        },
        _ => {},
    }
}

/// Counter fields can be read back.
proof fn lemma_counter_fields(a: Field, s: Seq<u8>, b: Field, t: Seq<u8>)
    requires
        field()(a) + s == field()(b) + t,
        a is CounterLike,
        b is CounterLike,
    ensures
        a == b,
        s == t,
{
    let (x, y) = (field()(a) + s, field()(b) + t);
    if let (Field::CounterLike(m, e, c, p), Field::CounterLike(n, f, d, q)) = (a, b) {
        let (u, v) = (number_bytes(p) + s, number_bytes(q) + t);
        assert(x[1] == endian_tag(e) && y[1] == endian_tag(f));
        assert(x.skip(2) =~= number_bytes(m as u64) + (number_bytes(c) + u));
        assert(y.skip(2) =~= number_bytes(n as u64) + (number_bytes(d) + v));
        lemma_number(m as u64, number_bytes(c) + u, n as u64, number_bytes(d) + v);
        lemma_number(c, u, d, v);
        lemma_number(p, s, q, t);
    }
}

/// Header fields can be read back.
proof fn lemma_field(a: Field, s: Seq<u8>, b: Field, t: Seq<u8>)
    requires
        field()(a) + s == field()(b) + t,
    ensures
        a == b,
        s == t,
{
    let (fa, fb) = (field()(a), field()(b));
    lemma_field_starts(a);
    lemma_field_starts(b);
    assert((fa + s)[0] == fa[0] && (fb + t)[0] == fb[0]);
    if a is Fixed || a is Random {
        lemma_like_fields(a, s, b, t);
    } else if a is Length || a is Id {
        lemma_length_fields(a, s, b, t);
    } else {
        lemma_counter_fields(a, s, b, t);
    }
}

/// A header field starts with the byte that names it.
proof fn lemma_field_starts(f: Field)
    ensures
        field()(f).len() >= 1,
        field()(f)[0] == match f {
            Field::Fixed(_) => 0u8,
            Field::Random(_) => 1,
            Field::Length(_, _) => 2,
            Field::Id(_, _) => 3,
            Field::CounterLike(_, _, _, _) => 4,
        },
{
}

/// Header specifications can be read back.
proof fn lemma_header_spec(a: Spec, s: Seq<u8>, b: Spec, t: Seq<u8>)
    requires
        header_spec()(a) + s == header_spec()(b) + t,
    ensures
        a == b,
        s == t,
{
    lemma_numbers();
    assert(separable(field())) by {
        reveal(separable);
        assert forall|a: Field, s: Seq<u8>, b: Field, t: Seq<u8>| #[trigger]
            (field()(a) + s) == #[trigger] (field()(b) + t) implies a == b && s == t by {
            lemma_field(a, s, b, t);
        }
    }
    let (x, y) = (header_spec()(a) + s, header_spec()(b) + t);
    assert(x[0] == header_spec()(a)[0] && y[0] == header_spec()(b)[0]);
    match (a, b) {
        (Spec::Structured(m), Spec::Structured(n)) => {
            assert(x.skip(1) =~= list_bytes(m, field()) + s);
            assert(y.skip(1) =~= list_bytes(n, field()) + t);
            lemma_list(field(), m, s, n, t);
        },
        (Spec::RawPrefix(m, i), Spec::RawPrefix(n, j)) => {
            let (u, v) = (list_bytes(i, position()) + s, list_bytes(j, position()) + t);
            assert(x.skip(1) =~= text_bytes(m) + u);
            assert(y.skip(1) =~= text_bytes(n) + v);
            lemma_text(m, u, n, v);
            lemma_list(position(), i, s, j, t);
        },
        _ => {},
    }
}

/// What identifies a mask can be read back.
proof fn lemma_head(a: Profile, s: Seq<u8>, b: Profile, t: Seq<u8>)
    requires
        head_bytes(a) + s == head_bytes(b) + t,
    ensures
        a.mask_id == b.mask_id,
        a.version == b.version,
        a.created_at == b.created_at,
        a.expires_at == b.expires_at,
        a.spoof_protocol == b.spoof_protocol,
        a.header_template == b.header_template,
        a.eph_pub_offset == b.eph_pub_offset,
        a.eph_pub_length == b.eph_pub_length,
        s == t,
{
    reveal(head_bytes);
    let a7 = number_bytes(a.eph_pub_length as u64) + s;
    let a6 = number_bytes(a.eph_pub_offset as u64) + a7;
    let a5 = block_bytes(a.header_template) + a6;
    let a4 = seq![protocol_tag(a.spoof_protocol)] + a5;
    let a3 = number_bytes(a.expires_at) + a4;
    let a2 = number_bytes(a.created_at) + a3;
    let a1 = number_bytes(a.version as u64) + a2;
    let b7 = number_bytes(b.eph_pub_length as u64) + t;
    let b6 = number_bytes(b.eph_pub_offset as u64) + b7;
    let b5 = block_bytes(b.header_template) + b6;
    let b4 = seq![protocol_tag(b.spoof_protocol)] + b5;
    let b3 = number_bytes(b.expires_at) + b4;
    let b2 = number_bytes(b.created_at) + b3;
    let b1 = number_bytes(b.version as u64) + b2;
    lemma_join8(
        text_bytes(a.mask_id),
        number_bytes(a.version as u64),
        number_bytes(a.created_at),
        number_bytes(a.expires_at),
        seq![protocol_tag(a.spoof_protocol)],
        block_bytes(a.header_template),
        number_bytes(a.eph_pub_offset as u64),
        number_bytes(a.eph_pub_length as u64),
        s,
    );
    lemma_join8(
        text_bytes(b.mask_id),
        number_bytes(b.version as u64),
        number_bytes(b.created_at),
        number_bytes(b.expires_at),
        seq![protocol_tag(b.spoof_protocol)],
        block_bytes(b.header_template),
        number_bytes(b.eph_pub_offset as u64),
        number_bytes(b.eph_pub_length as u64),
        t,
    );
    lemma_text(a.mask_id, a1, b.mask_id, b1);
    lemma_number(a.version as u64, a2, b.version as u64, b2);
    lemma_number(a.created_at, a3, b.created_at, b3);
    lemma_number(a.expires_at, a4, b.expires_at, b4);
    let (p, q) = (seq![protocol_tag(a.spoof_protocol)], seq![protocol_tag(b.spoof_protocol)]);
    lemma_cut(p, a5, q, b5);
    assert(p[0] == q[0]);
    lemma_block(a.header_template, a6, b.header_template, b6);
    lemma_number(a.eph_pub_offset as u64, a7, b.eph_pub_offset as u64, b7);
    lemma_number(a.eph_pub_length as u64, s, b.eph_pub_length as u64, t);
}

/// How a mask shapes traffic can be read back.
proof fn lemma_shape(a: Profile, s: Seq<u8>, b: Profile, t: Seq<u8>)
    requires
        shape_bytes(a) + s == shape_bytes(b) + t,
    ensures
        a.size_distribution == b.size_distribution,
        a.iat_distribution == b.iat_distribution,
        a.padding_strategy == b.padding_strategy,
        a.fsm_states == b.fsm_states,
        a.fsm_initial_state == b.fsm_initial_state,
        a.signature_vector == b.signature_vector,
        a.header_spec == b.header_spec,
        s == t,
{
    lemma_numbers();
    assert(separable(state())) by {
        reveal(separable);
        assert forall|a: State, s: Seq<u8>, b: State, t: Seq<u8>| #[trigger]
            (state()(a) + s) == #[trigger] (state()(b) + t) implies a == b && s == t by {
            lemma_state(a, s, b, t);
        }
    }
    assert(separable(header_spec())) by {
        reveal(separable);
        assert forall|a: Spec, s: Seq<u8>, b: Spec, t: Seq<u8>| #[trigger]
            (header_spec()(a) + s) == #[trigger] (header_spec()(b) + t) implies a == b && s == t by {
            lemma_header_spec(a, s, b, t);
        }
    }
    reveal(shape_bytes);
    let a6 = option_bytes(a.header_spec, header_spec()) + s;
    let a5 = list_bytes(a.signature_vector, half_word()) + a6;
    let a4 = number_bytes(a.fsm_initial_state as u64) + a5;
    let a3 = list_bytes(a.fsm_states, state()) + a4;
    let a2 = padding()(a.padding_strategy) + a3;
    let a1 = arrivals()(a.iat_distribution) + a2;
    let b6 = option_bytes(b.header_spec, header_spec()) + t;
    let b5 = list_bytes(b.signature_vector, half_word()) + b6;
    let b4 = number_bytes(b.fsm_initial_state as u64) + b5;
    let b3 = list_bytes(b.fsm_states, state()) + b4;
    let b2 = padding()(b.padding_strategy) + b3;
    let b1 = arrivals()(b.iat_distribution) + b2;
    lemma_join7(
        sizes()(a.size_distribution),
        arrivals()(a.iat_distribution),
        padding()(a.padding_strategy),
        list_bytes(a.fsm_states, state()),
        number_bytes(a.fsm_initial_state as u64),
        list_bytes(a.signature_vector, half_word()),
        option_bytes(a.header_spec, header_spec()),
        s,
    );
    lemma_join7(
        sizes()(b.size_distribution),
        arrivals()(b.iat_distribution),
        padding()(b.padding_strategy),
        list_bytes(b.fsm_states, state()),
        number_bytes(b.fsm_initial_state as u64),
        list_bytes(b.signature_vector, half_word()),
        option_bytes(b.header_spec, header_spec()),
        t,
    );
    lemma_sizes(a.size_distribution, a1, b.size_distribution, b1);
    lemma_arrivals(a.iat_distribution, a2, b.iat_distribution, b2);
    lemma_padding(a.padding_strategy, a3, b.padding_strategy, b3);
    lemma_list(state(), a.fsm_states, a4, b.fsm_states, b4);
    lemma_number(a.fsm_initial_state as u64, a5, b.fsm_initial_state as u64, b5);
    lemma_list(half_word(), a.signature_vector, a6, b.signature_vector, b6);
    lemma_option(header_spec(), a.header_spec, s, b.header_spec, t);
}

/// Profiles can be read back, but for their signatures.
proof fn lemma_profile(a: Profile, s: Seq<u8>, b: Profile, t: Seq<u8>)
    requires
        signed_bytes(a) + s == signed_bytes(b) + t,
    ensures
        a == (Profile { signature: a.signature, ..b }),
        s == t,
    decreases a,
{
    let ra = match a.reverse_profile {
        None => seq![0u8],
        Some(p) => seq![1u8] + signed_bytes(*p) + block_bytes(p.signature),
    };
    let rb = match b.reverse_profile {
        None => seq![0u8],
        Some(q) => seq![1u8] + signed_bytes(*q) + block_bytes(q.signature),
    };
    lemma_join3(head_bytes(a), shape_bytes(a), ra, s);
    lemma_join3(head_bytes(b), shape_bytes(b), rb, t);
    lemma_head(a, shape_bytes(a) + (ra + s), b, shape_bytes(b) + (rb + t));
    lemma_shape(a, ra + s, b, rb + t);
    let (x, y) = (ra + s, rb + t);
    assert(x[0] == ra[0] && y[0] == rb[0]);
    match (a.reverse_profile, b.reverse_profile) {
        (None, None) => {
            lemma_cut(ra, s, rb, t);
        },
        (Some(p), Some(q)) => {
            let (u, v) = (block_bytes(p.signature) + s, block_bytes(q.signature) + t);
            let one = seq![1u8];
            lemma_join3(one, signed_bytes(*p), block_bytes(p.signature), s);
            lemma_join3(one, signed_bytes(*q), block_bytes(q.signature), t);
            lemma_cut(one, signed_bytes(*p) + u, one, signed_bytes(*q) + v);
            lemma_profile(*p, u, *q, v);
            lemma_block(p.signature, s, q.signature, t);
        },
        _ => {},
    }
}

/// The signed message fixes the whole profile: two profiles with one message agree in
/// every field but the signature.
pub proof fn law_message_fixes_profile(a: Profile, b: Profile)
    requires
        signed_bytes(a) == signed_bytes(b),
    ensures
        a == (Profile { signature: a.signature, ..b }),
{
    let none = Seq::<u8>::empty();
    assert(signed_bytes(a) + none =~= signed_bytes(b) + none);
    lemma_profile(a, none, b, none);
}

/// Appends a byte.
fn put_byte(out: &mut Vec<u8>, byte: u8)
    ensures
        final(out)@ == old(out)@ + seq![byte],
{
    out.push(byte);
    assert(out@ =~= old(out)@ + seq![byte]);
}

/// Appends a number.
fn put_number(out: &mut Vec<u8>, n: u64)
    ensures
        final(out)@ == old(out)@ + number_bytes(n),
{
    let mut bytes = encode_semantic_u64(n, 8, HeaderEndian::Little);
    out.append(&mut bytes);
}

/// Appends a size.
fn put_size(out: &mut Vec<u8>, n: usize)
    ensures
        final(out)@ == old(out)@ + size_bytes(n as nat),
    decreases n,
{
    if n < 128 {
        put_byte(out, n as u8);
    } else {
        put_byte(out, (128 + n % 128) as u8);
        put_size(out, n / 128);
        assert(out@ =~= old(out)@ + size_bytes(n as nat));
    }
}

/// Appends bytes with their number in front.
fn put_block(out: &mut Vec<u8>, bytes: &[u8])
    ensures
        final(out)@ == old(out)@ + block_bytes(bytes@),
{
    put_size(out, bytes.len());
    let mut copied = vstd::slice::slice_to_vec(bytes);
    out.append(&mut copied);
    assert(out@ =~= old(out)@ + block_bytes(bytes@));
}

/// Appends a text.
fn put_text(out: &mut Vec<u8>, text: &String)
    ensures
        final(out)@ == old(out)@ + text_bytes(text@),
{
    put_block(out, text.as_str().as_bytes());
}

/// Appends a list of 64-bit numbers.
fn put_words(out: &mut Vec<u8>, list: &Vec<u64>)
    ensures
        final(out)@ == old(out)@ + list_bytes(list@, word()),
{
    put_size(out, list.len());
    let ghost start = out@;
    let mut i: usize = 0;
    assert(start =~= start + listed(list@.take(0), word()));
    while i < list.len()
        invariant
            i <= list@.len(),
            out@ == start + listed(list@.take(i as int), word()),
        decreases list@.len() - i,
    {
        put_number(out, list[i]);
        proof {
            let next = list@.take(i + 1);
            assert(next.drop_last() =~= list@.take(i as int));
            assert(out@ =~= start + listed(next, word()));
        }
        i = i + 1;
    }
    assert(list@.take(i as int) =~= list@);
    assert(out@ =~= old(out)@ + list_bytes(list@, word()));
}

/// Appends a list of 32-bit numbers.
fn put_half_words(out: &mut Vec<u8>, list: &Vec<u32>)
    ensures
        final(out)@ == old(out)@ + list_bytes(list@, half_word()),
{
    put_size(out, list.len());
    let ghost start = out@;
    let mut i: usize = 0;
    assert(start =~= start + listed(list@.take(0), half_word()));
    while i < list.len()
        invariant
            i <= list@.len(),
            out@ == start + listed(list@.take(i as int), half_word()),
        decreases list@.len() - i,
    {
        put_number(out, list[i] as u64);
        proof {
            let next = list@.take(i + 1);
            assert(next.drop_last() =~= list@.take(i as int));
            assert(out@ =~= start + listed(next, half_word()));
        }
        i = i + 1;
    }
    assert(list@.take(i as int) =~= list@);
    assert(out@ =~= old(out)@ + list_bytes(list@, half_word()));
}

/// Appends a list of positions.
fn put_positions(out: &mut Vec<u8>, list: &Vec<usize>)
    ensures
        final(out)@ == old(out)@ + list_bytes(list@, position()),
{
    put_size(out, list.len());
    let ghost start = out@;
    let mut i: usize = 0;
    assert(start =~= start + listed(list@.take(0), position()));
    while i < list.len()
        invariant
            i <= list@.len(),
            out@ == start + listed(list@.take(i as int), position()),
        decreases list@.len() - i,
    {
        put_number(out, list[i] as u64);
        proof {
            let next = list@.take(i + 1);
            assert(next.drop_last() =~= list@.take(i as int));
            assert(out@ =~= start + listed(next, position()));
        }
        i = i + 1;
    }
    assert(list@.take(i as int) =~= list@);
    assert(out@ =~= old(out)@ + list_bytes(list@, position()));
}

/// Appends a list of bins.
fn put_bins(out: &mut Vec<u8>, list: &Vec<(u16, u16, u32)>)
    ensures
        final(out)@ == old(out)@ + list_bytes(list@, bin()),
{
    put_size(out, list.len());
    let ghost start = out@;
    let mut i: usize = 0;
    assert(start =~= start + listed(list@.take(0), bin()));
    while i < list.len()
        invariant
            i <= list@.len(),
            out@ == start + listed(list@.take(i as int), bin()),
        decreases list@.len() - i,
    {
        let (low, high, weight) = list[i];
        put_number(out, low as u64);
        put_number(out, high as u64);
        put_number(out, weight as u64);
        proof {
            let next = list@.take(i + 1);
            assert(next.drop_last() =~= list@.take(i as int));
            assert(next.last() == (low, high, weight));
            assert(out@ =~= start + listed(next, bin()));
        }
        i = i + 1;
    }
    assert(list@.take(i as int) =~= list@);
    assert(out@ =~= old(out)@ + list_bytes(list@, bin()));
}

/// Appends a size distribution.
fn put_sizes(out: &mut Vec<u8>, s: &SizeDistribution)
    ensures
        final(out)@ == old(out)@ + sizes()(s@),
{
    let tag: u8 = match s.dist_type {
        SizeDistType::Histogram => 0,
        SizeDistType::Parametric => 1,
    };
    put_byte(out, tag);
    put_bins(out, &s.bins);
    let ghost before = out@;
    match s.parametric_type {
        None => {
            put_byte(out, 0);
        },
        Some(kind) => {
            put_byte(out, 1);
            let name: u8 = match kind {
                ParametricType::LogNormal => 0,
                ParametricType::Gamma => 1,
                ParametricType::Bimodal => 2,
            };
            put_byte(out, name);
        },
    }
    assert(out@ =~= before + option_bytes(s@.parametric_type, family()));
    let ghost before = out@;
    match &s.parametric_params {
        None => {
            put_byte(out, 0);
        },
        Some(params) => {
            put_byte(out, 1);
            put_words(out, params);
        },
    }
    assert(out@ =~= before + option_bytes(s@.parametric_params, words()));
    assert(out@ =~= old(out)@ + sizes()(s@));
}

/// Appends a distribution of inter-arrival times.
fn put_arrivals(out: &mut Vec<u8>, a: &IATDistribution)
    ensures
        final(out)@ == old(out)@ + arrivals()(a@),
{
    let tag: u8 = match a.dist_type {
        IATDistType::Exponential => 0,
        IATDistType::LogNormal => 1,
        IATDistType::Gamma => 2,
        IATDistType::Empirical => 3,
    };
    put_byte(out, tag);
    put_words(out, &a.params);
    put_number(out, a.jitter_range_ms.0);
    put_number(out, a.jitter_range_ms.1);
    assert(out@ =~= old(out)@ + arrivals()(a@));
}

/// Appends a padding strategy.
fn put_padding(out: &mut Vec<u8>, p: PaddingStrategy)
    ensures
        final(out)@ == old(out)@ + padding()(p),
{
    match p {
        PaddingStrategy::RandomUniform { min, max } => {
            put_byte(out, 0);
            put_number(out, min as u64);
            put_number(out, max as u64);
        },
        PaddingStrategy::MatchDistribution => {
            put_byte(out, 1);
        },
        PaddingStrategy::Fixed { size } => {
            put_byte(out, 2);
            put_number(out, size as u64);
        },
    }
    assert(out@ =~= old(out)@ + padding()(p));
}

/// Appends a condition.
fn put_condition(out: &mut Vec<u8>, c: TransitionCondition)
    ensures
        final(out)@ == old(out)@ + condition_bytes(c),
{
    match c {
        TransitionCondition::AfterPackets(n) => {
            put_byte(out, 0);
            put_number(out, n as u64);
        },
        TransitionCondition::AfterDuration(ms) => {
            put_byte(out, 1);
            put_number(out, ms);
        },
        TransitionCondition::OnPayloadType(t) => {
            put_byte(out, 2);
            put_number(out, t as u64);
        },
        TransitionCondition::Random(p) => {
            put_byte(out, 3);
            put_number(out, p as u64);
        },
    }
    assert(out@ =~= old(out)@ + condition_bytes(c));
}

/// Appends a transition.
fn put_transition(out: &mut Vec<u8>, t: &FSMTransition)
    ensures
        final(out)@ == old(out)@ + transition()(t@),
{
    put_condition(out, t.condition);
    put_number(out, t.next_state as u64);
    let ghost before = out@;
    match &t.size_override {
        None => {
            put_byte(out, 0);
        },
        Some(s) => {
            put_byte(out, 1);
            put_sizes(out, s);
        },
    }
    assert(out@ =~= before + option_bytes(t@.size_override, sizes()));
    let ghost before = out@;
    match &t.iat_override {
        None => {
            put_byte(out, 0);
        },
        Some(a) => {
            put_byte(out, 1);
            put_arrivals(out, a);
        },
    }
    assert(out@ =~= before + option_bytes(t@.iat_override, arrivals()));
    let ghost before = out@;
    match t.padding_override {
        None => {
            put_byte(out, 0);
        },
        Some(p) => {
            put_byte(out, 1);
            put_padding(out, p);
        },
    }
    assert(out@ =~= before + option_bytes(t@.padding_override, padding()));
    proof {
        lemma_join5(
            condition_bytes(t.condition),
            number_bytes(t.next_state as u64),
            option_bytes(t@.size_override, sizes()),
            option_bytes(t@.iat_override, arrivals()),
            option_bytes(t@.padding_override, padding()),
            old(out)@,
        );
    }
}

/// Appends a state.
fn put_state(out: &mut Vec<u8>, s: &FSMState)
    ensures
        final(out)@ == old(out)@ + state()(s@),
{
    let ghost models = s@.transitions;
    put_number(out, s.state_id as u64);
    put_size(out, s.transitions.len());
    let ghost start = out@;
    let mut i: usize = 0;
    assert(start =~= start + listed(models.take(0), transition()));
    while i < s.transitions.len()
        invariant
            i <= s.transitions@.len(),
            models == s@.transitions,
            out@ == start + listed(models.take(i as int), transition()),
        decreases s.transitions@.len() - i,
    {
        put_transition(out, &s.transitions[i]);
        proof {
            let next = models.take(i + 1);
            assert(next.drop_last() =~= models.take(i as int));
            assert(next.last() == s.transitions@[i as int]@);
            assert(out@ =~= start + listed(next, transition()));
        }
        i = i + 1;
    }
    assert(models.take(i as int) =~= models);
    assert(out@ =~= old(out)@ + state()(s@));
}

/// Appends a list of states.
fn put_states(out: &mut Vec<u8>, list: &Vec<FSMState>)
    ensures
        final(out)@ == old(out)@ + list_bytes(state_models(list@), state()),
{
    let ghost models = state_models(list@);
    put_size(out, list.len());
    let ghost start = out@;
    let mut i: usize = 0;
    assert(start =~= start + listed(models.take(0), state()));
    while i < list.len()
        invariant
            i <= list@.len(),
            models == state_models(list@),
            out@ == start + listed(models.take(i as int), state()),
        decreases list@.len() - i,
    {
        put_state(out, &list[i]);
        proof {
            let next = models.take(i + 1);
            assert(next.drop_last() =~= models.take(i as int));
            assert(next.last() == list@[i as int]@);
            assert(out@ =~= start + listed(next, state()));
        }
        i = i + 1;
    }
    assert(models.take(i as int) =~= models);
    assert(out@ =~= old(out)@ + list_bytes(models, state()));
}

/// Appends the name of a byte order.
fn put_endian(out: &mut Vec<u8>, endian: HeaderEndian)
    ensures
        final(out)@ == old(out)@ + seq![endian_tag(endian)],
{
    match endian {
        HeaderEndian::Big => put_byte(out, 0),
        HeaderEndian::Little => put_byte(out, 1),
    }
}

/// Appends a header field.
fn put_field(out: &mut Vec<u8>, f: &HeaderField)
    ensures
        final(out)@ == old(out)@ + field()(f@),
{
    match f {
        HeaderField::Fixed { bytes } => {
            put_byte(out, 0);
            put_block(out, bytes.as_slice());
        },
        HeaderField::Random { len } => {
            put_byte(out, 1);
            put_number(out, *len as u64);
        },
        HeaderField::Length { len, endian } => {
            put_byte(out, 2);
            put_endian(out, *endian);
            put_number(out, *len as u64);
        },
        HeaderField::Id { len, mode } => {
            put_byte(out, 3);
            match mode {
                IdFieldMode::Random => put_byte(out, 0),
                IdFieldMode::Zero => put_byte(out, 1),
            }
            put_number(out, *len as u64);
        },
        HeaderField::CounterLike { len, endian, start, step } => {
            put_byte(out, 4);
            put_endian(out, *endian);
            put_number(out, *len as u64);
            put_number(out, *start);
            put_number(out, *step);
        },
    }
    assert(out@ =~= old(out)@ + field()(f@));
}

/// Appends a list of header fields.
fn put_fields(out: &mut Vec<u8>, list: &Vec<HeaderField>)
    ensures
        final(out)@ == old(out)@ + list_bytes(field_models(list@), field()),
{
    let ghost models = field_models(list@);
    put_size(out, list.len());
    let ghost start = out@;
    let mut i: usize = 0;
    assert(start =~= start + listed(models.take(0), field()));
    while i < list.len()
        invariant
            i <= list@.len(),
            models == field_models(list@),
            out@ == start + listed(models.take(i as int), field()),
        decreases list@.len() - i,
    {
        put_field(out, &list[i]);
        proof {
            let next = models.take(i + 1);
            assert(next.drop_last() =~= models.take(i as int));
            assert(next.last() == list@[i as int]@);
            assert(out@ =~= start + listed(next, field()));
        }
        i = i + 1;
    }
    assert(models.take(i as int) =~= models);
    assert(out@ =~= old(out)@ + list_bytes(models, field()));
}

/// Appends a header specification.
fn put_header_spec(out: &mut Vec<u8>, s: &HeaderSpec)
    ensures
        final(out)@ == old(out)@ + header_spec()(s@),
{
    match s {
        HeaderSpec::Structured { fields } => {
            put_byte(out, 0);
            put_fields(out, fields);
        },
        HeaderSpec::RawPrefix { prefix_hex, randomize_indices } => {
            put_byte(out, 1);
            put_text(out, prefix_hex);
            put_positions(out, randomize_indices);
        },
    }
    assert(out@ =~= old(out)@ + header_spec()(s@));
}

/// Appends what identifies a mask.
fn put_head(out: &mut Vec<u8>, p: &MaskProfile)
    ensures
        final(out)@ == old(out)@ + head_bytes(p@),
{
    put_text(out, &p.mask_id);
    put_number(out, p.version as u64);
    put_number(out, p.created_at);
    put_number(out, p.expires_at);
    let tag: u8 = match p.spoof_protocol {
        SpoofProtocol::Unspoofed => 0,
        SpoofProtocol::QUIC => 1,
        SpoofProtocol::WebRTC_STUN => 2,
        SpoofProtocol::HTTPS_H2 => 3,
        SpoofProtocol::DNS_over_UDP => 4,
    };
    put_byte(out, tag);
    put_block(out, p.header_template.as_slice());
    put_number(out, p.eph_pub_offset as u64);
    put_number(out, p.eph_pub_length as u64);
    proof {
        reveal(head_bytes);
    }
    assert(out@ =~= old(out)@ + head_bytes(p@));
}

/// Appends how a mask shapes traffic.
fn put_shape(out: &mut Vec<u8>, p: &MaskProfile)
    ensures
        final(out)@ == old(out)@ + shape_bytes(p@),
{
    put_sizes(out, &p.size_distribution);
    put_arrivals(out, &p.iat_distribution);
    put_padding(out, p.padding_strategy);
    put_states(out, &p.fsm_states);
    put_number(out, p.fsm_initial_state as u64);
    put_half_words(out, &p.signature_vector);
    let ghost before = out@;
    match &p.header_spec {
        None => {
            put_byte(out, 0);
        },
        Some(spec) => {
            put_byte(out, 1);
            put_header_spec(out, spec);
        },
    }
    assert(out@ =~= before + option_bytes(p@.header_spec, header_spec()));
    proof {
        reveal(shape_bytes);
    }
    assert(out@ =~= old(out)@ + shape_bytes(p@));
}

/// Appends the message that the signature of a profile covers.
pub fn put_profile(out: &mut Vec<u8>, p: &MaskProfile)
    ensures
        final(out)@ == old(out)@ + signed_bytes(p@),
    decreases p,
{
    put_head(out, p);
    put_shape(out, p);
    match &p.reverse_profile {
        None => {
            put_byte(out, 0);
        },
        Some(reverse) => {
            put_byte(out, 1);
            put_profile(out, reverse);
            put_block(out, reverse.signature.as_slice());
        },
    }
    assert(out@ =~= old(out)@ + signed_bytes(p@));
}

} // verus!
