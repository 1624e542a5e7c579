//! Header specifications: how the bytes in front of a packet are generated.
use crate::hexadecimal::{decode, hex_bytes, hex_text, is_hex, law_hex_round_trip};
use crate::mask_rng::{drawn_bytes, drawn_large, fresh, Draw, DrawLog, MaskRng};
use vstd::arithmetic::div_mod::lemma_div_denominator;
use vstd::arithmetic::power::{lemma_pow0, lemma_pow1, lemma_pow_adds, lemma_pow_positive, pow};
use vstd::prelude::*;

verus! {

/// The order of the bytes of a number in a header.
#[derive(Debug, Clone, Copy, PartialEq, Eq, Structural)]
pub enum HeaderEndian {
    Big,
    Little,
}

/// How an identifier field is filled.
#[derive(Debug, Clone, Copy, PartialEq, Eq, Structural)]
pub enum IdFieldMode {
    Random,
    Zero,
}

impl Default for IdFieldMode {
    fn default() -> (r: Self)
        ensures
            r == IdFieldMode::Random,
    {
        IdFieldMode::Random
    }
}

/// The step of a counter field that names none.
pub fn default_counter_step() -> (r: u64)
    ensures
        r == 1,
{
    1
}

/// One field of a header.
#[derive(Debug)]
pub enum HeaderField {
    /// The same bytes in every header.
    Fixed { bytes: Vec<u8> },
    /// New random bytes in every header.
    Random { len: usize },
    /// A length, left zero to be filled in later.
    Length { len: usize, endian: HeaderEndian },
    /// An identifier.
    Id { len: usize, mode: IdFieldMode },
    /// A number that looks like a running counter.
    CounterLike { len: usize, endian: HeaderEndian, start: u64, step: u64 },
}

/// The model of a header field.
pub enum Field {
    Fixed(Seq<u8>),
    Random(usize),
    Length(usize, HeaderEndian),
    Id(usize, IdFieldMode),
    CounterLike(usize, HeaderEndian, u64, u64),
}

impl View for HeaderField {
    type V = Field;

    open spec fn view(&self) -> Field {
        match self {
            HeaderField::Fixed { bytes } => Field::Fixed(bytes@),
            HeaderField::Random { len } => Field::Random(*len),
            HeaderField::Length { len, endian } => Field::Length(*len, *endian),
            HeaderField::Id { len, mode } => Field::Id(*len, *mode),
            HeaderField::CounterLike { len, endian, start, step } => Field::CounterLike(
                *len,
                *endian,
                *start,
                *step,
            ),
        }
    }
}

impl Clone for HeaderField {
    fn clone(&self) -> (r: Self)
        ensures
            r@ == self@,
    {
        match self {
            HeaderField::Fixed { bytes } => HeaderField::Fixed { bytes: copy_bytes(bytes) },
            HeaderField::Random { len } => HeaderField::Random { len: *len },
            HeaderField::Length { len, endian } => HeaderField::Length {
                len: *len,
                endian: *endian,
            },
            HeaderField::Id { len, mode } => HeaderField::Id { len: *len, mode: *mode },
            HeaderField::CounterLike { len, endian, start, step } => HeaderField::CounterLike {
                len: *len,
                endian: *endian,
                start: *start,
                step: *step,
            },
        }
    }
}

/// A copy of a byte vector.
pub(crate) fn copy_bytes(bytes: &Vec<u8>) -> (r: Vec<u8>)
    ensures
        r@ == bytes@,
{
    let r = bytes.clone();
    assert(r@ =~= bytes@);
    r
}

/// The models of a sequence of fields.
pub open spec fn field_models(fields: Seq<HeaderField>) -> Seq<Field> {
    fields.map_values(|f: HeaderField| f@)
}

/// A declaration of how headers are generated.
#[derive(Debug)]
pub enum HeaderSpec {
    /// Typed fields, one after the other.
    Structured { fields: Vec<HeaderField> },
    /// Fixed bytes, given in hexadecimal, of which some positions are random in
    /// every header.
    RawPrefix { prefix_hex: String, randomize_indices: Vec<usize> },
}

/// The model of a header specification.
pub enum Spec {
    Structured(Seq<Field>),
    RawPrefix(Seq<char>, Seq<usize>),
}

impl View for HeaderSpec {
    type V = Spec;

    open spec fn view(&self) -> Spec {
        match self {
            HeaderSpec::Structured { fields } => Spec::Structured(field_models(fields@)),
            HeaderSpec::RawPrefix { prefix_hex, randomize_indices } => Spec::RawPrefix(
                prefix_hex@,
                randomize_indices@,
            ),
        }
    }
}

impl Clone for HeaderSpec {
    fn clone(&self) -> (r: Self)
        ensures
            r@ == self@,
    {
        match self {
            HeaderSpec::Structured { fields } => HeaderSpec::Structured {
                fields: copy_fields(fields),
            },
            HeaderSpec::RawPrefix { prefix_hex, randomize_indices } => {
                let indices = randomize_indices.clone();
                assert(indices@ =~= randomize_indices@);
                HeaderSpec::RawPrefix { prefix_hex: prefix_hex.clone(), randomize_indices: indices }
            },
        }
    }
}

/// A copy of header fields.
fn copy_fields(fields: &Vec<HeaderField>) -> (r: Vec<HeaderField>)
    ensures
        field_models(r@) == field_models(fields@),
{
    let mut r: Vec<HeaderField> = Vec::new();
    let mut i: usize = 0;
    while i < fields.len()
        invariant
            i <= fields.len(),
            r.len() == i,
            forall|j: int| 0 <= j < i ==> (#[trigger] r[j])@ == fields[j]@,
        decreases fields.len() - i,
    {
        r.push(fields[i].clone());
        i = i + 1;
    }
    assert(field_models(r@) =~= field_models(fields@));
    r
}

/// The bytes that stand in for a prefix that is no hexadecimal text.
pub open spec fn fallback_prefix() -> Seq<u8> {
    seq![0u8, 1, 2, 3]
}

/// The bytes of a prefix.
pub open spec fn prefix_bytes(prefix_hex: Seq<char>) -> Seq<u8> {
    if is_hex(prefix_hex) {
        hex_bytes(prefix_hex)
    } else {
        fallback_prefix()
    }
}

/// A run of fixed bytes as fields: one field, or none for an empty run.
pub open spec fn run_fields(run: Seq<u8>) -> Seq<Field> {
    if run.len() == 0 {
        Seq::empty()
    } else {
        seq![Field::Fixed(run)]
    }
}

/// The fields of the first `n` bytes of a prefix without the run of fixed bytes
/// that is still open at position `n`.
pub open spec fn closed_fields(bytes: Seq<u8>, indices: Seq<usize>, n: nat) -> Seq<Field>
    decreases n,
{
    if n == 0 {
        Seq::empty()
    } else {
        let i = (n - 1) as nat;
        if indices.contains(i as usize) {
            closed_fields(bytes, indices, i) + run_fields(open_run(bytes, indices, i)) + seq![
                Field::Random(1),
            ]
        } else {
            closed_fields(bytes, indices, i)
        }
    }
}

/// The fixed bytes that directly precede position `n`.
pub open spec fn open_run(bytes: Seq<u8>, indices: Seq<usize>, n: nat) -> Seq<u8>
    decreases n,
{
    if n == 0 || indices.contains((n - 1) as usize) {
        Seq::empty()
    } else {
        open_run(bytes, indices, (n - 1) as nat).push(bytes[n - 1])
    }
}

/// The fields of a prefix: a random byte at each position that is listed, and
/// the bytes between as runs of fixed bytes.
pub open spec fn prefix_fields(bytes: Seq<u8>, indices: Seq<usize>) -> Seq<Field> {
    if indices.len() == 0 {
        seq![Field::Fixed(bytes)]
    } else {
        closed_fields(bytes, indices, bytes.len()) + run_fields(
            open_run(bytes, indices, bytes.len()),
        )
    }
}

/// The fields of a specification.
pub open spec fn spec_fields(spec: Spec) -> Seq<Field> {
    match spec {
        Spec::Structured(fields) => fields,
        Spec::RawPrefix(prefix_hex, indices) => prefix_fields(prefix_bytes(prefix_hex), indices),
    }
}

/// The number of bytes of a field.
pub open spec fn field_len(field: Field) -> nat {
    match field {
        Field::Fixed(bytes) => bytes.len(),
        Field::Random(len) => len as nat,
        Field::Length(len, _) => len as nat,
        Field::Id(len, _) => len as nat,
        Field::CounterLike(len, _, _, _) => len as nat,
    }
}

/// The number of bytes of a sequence of fields.
pub open spec fn fields_len(fields: Seq<Field>) -> nat
    decreases fields.len(),
{
    if fields.len() == 0 {
        0
    } else {
        fields_len(fields.drop_last()) + field_len(fields.last())
    }
}

/// The byte of weight `256^k` of a number.
pub open spec fn byte_at(value: u64, k: nat) -> u8 {
    (value as int / pow(256, k) % 256) as u8
}

/// A number as `len` bytes: the lowest bytes of the number, with zeros above
/// them where there is room.
pub open spec fn encoded(value: u64, len: nat, endian: HeaderEndian) -> Seq<u8> {
    Seq::new(
        len,
        |i: int|
            match endian {
                HeaderEndian::Big => byte_at(value, (len - 1 - i) as nat),
                HeaderEndian::Little => byte_at(value, i as nat),
            },
    )
}

/// The number that a byte sequence stands for, lowest byte first.
pub open spec fn little_number(bytes: Seq<u8>) -> int
    decreases bytes.len(),
{
    if bytes.len() == 0 {
        0
    } else {
        bytes[0] + 256 * little_number(bytes.drop_first())
    }
}

/// A number of repeated zero bytes.
pub open spec fn zeros(len: nat) -> Seq<u8> {
    Seq::new(len, |i: int| 0u8)
}

/// The upper end of the range from which a counter field is advanced.
pub open spec fn counter_reach(step: u64) -> int {
    if step >= 1 {
        step * 1024
    } else {
        1024
    }
}

/// `start` advanced by `by`, stopping at the largest 64-bit number.
pub open spec fn advanced(start: u64, by: u64) -> u64 {
    if start + by > u64::MAX {
        u64::MAX
    } else {
        (start + by) as u64
    }
}

/// The bytes that a field gives, for a generator in the given state.
pub open spec fn field_bytes(field: Field, log: DrawLog) -> Seq<u8> {
    match field {
        Field::Fixed(bytes) => bytes,
        Field::Random(len) => drawn_bytes(log.seed, log.draws, len as nat),
        Field::Length(len, endian) => encoded(0, len as nat, endian),
        Field::Id(len, IdFieldMode::Random) => drawn_bytes(log.seed, log.draws, len as nat),
        Field::Id(len, IdFieldMode::Zero) => zeros(len as nat),
        Field::CounterLike(len, endian, start, step) => encoded(
            advanced(start, drawn_large(log.seed, log.draws, 0, counter_reach(step) as u64)),
            len as nat,
            endian,
        ),
    }
}

/// The state of the generator after a field.
pub open spec fn field_log(field: Field, log: DrawLog) -> DrawLog {
    match field {
        Field::Random(len) => log.then_draw(Draw::Bytes(len as nat)),
        Field::Id(len, IdFieldMode::Random) => log.then_draw(Draw::Bytes(len as nat)),
        Field::CounterLike(_, _, _, step) => log.then_draw(
            Draw::Large(0, counter_reach(step) as u64),
        ),
        _ => log,
    }
}

/// The state of the generator after a sequence of fields.
pub open spec fn header_log(fields: Seq<Field>, log: DrawLog) -> DrawLog
    decreases fields.len(),
{
    if fields.len() == 0 {
        log
    } else {
        field_log(fields.last(), header_log(fields.drop_last(), log))
    }
}

/// The header that a sequence of fields gives, for a generator in the given
/// state: the bytes of the fields, one after the other.
pub open spec fn header_bytes(fields: Seq<Field>, log: DrawLog) -> Seq<u8>
    decreases fields.len(),
{
    if fields.len() == 0 {
        Seq::empty()
    } else {
        header_bytes(fields.drop_last(), log) + field_bytes(
            fields.last(),
            header_log(fields.drop_last(), log),
        )
    }
}

/// Counters whose reach is a 64-bit number.
pub open spec fn counters_fit(fields: Seq<Field>) -> bool {
    forall|i: int|
        0 <= i < fields.len() ==> ((#[trigger] fields[i]) matches Field::CounterLike(_, _, _, step)
            ==> counter_reach(step) <= u64::MAX)
}

/// A number as `len` bytes, in the given order.
pub fn encode_semantic_u64(value: u64, len: usize, endian: HeaderEndian) -> (r: Vec<u8>)
    requires
        len <= isize::MAX,
    ensures
        r@ == encoded(value, len as nat, endian),
{
    let mut digits: Vec<u8> = Vec::new();
    let mut rest: u64 = value;
    let mut i: usize = 0;
    proof {
        lemma_pow0(256);
        assert(value as int / 1 == value);
    }
    while i < len
        invariant
            i <= len,
            digits.len() == i,
            rest == value as int / pow(256, i as nat),
            forall|j: int| 0 <= j < i ==> #[trigger] digits[j] == byte_at(value, j as nat),
        decreases len - i,
    {
        digits.push((rest % 256) as u8);
        proof {
            let p = pow(256, i as nat);
            lemma_pow_positive(256, i as nat);
            lemma_pow1(256);
            lemma_pow_adds(256, i as nat, 1);
            lemma_div_denominator(value as int, p, 256);
        }
        rest = rest / 256;
        i = i + 1;
    }
    match endian {
        HeaderEndian::Little => {
            assert(digits@ =~= encoded(value, len as nat, endian));
            digits
        },
        HeaderEndian::Big => {
            let mut r: Vec<u8> = Vec::new();
            let mut k: usize = 0;
            while k < len
                invariant
                    k <= len,
                    digits.len() == len,
                    r.len() == k,
                    forall|j: int| 0 <= j < len ==> #[trigger] digits[j] == byte_at(value, j as nat),
                    forall|j: int|
                        0 <= j < k ==> #[trigger] r[j] == byte_at(value, (len - 1 - j) as nat),
                decreases len - k,
            {
                r.push(digits[len - 1 - k]);
                k = k + 1;
            }
            assert(r@ =~= encoded(value, len as nat, endian));
            r
        },
    }
}

/// Tests whether a position is listed.
fn has_index(indices: &Vec<usize>, index: usize) -> (r: bool)
    ensures
        r == indices@.contains(index),
{
    let mut i: usize = 0;
    while i < indices.len()
        invariant
            i <= indices.len(),
            forall|j: int| 0 <= j < i ==> indices[j] != index,
        decreases indices.len() - i,
    {
        if indices[i] == index {
            return true;
        }
        i = i + 1;
    }
    false
}

/// The fields of a prefix.
fn split_prefix(bytes: Vec<u8>, indices: &Vec<usize>) -> (r: Vec<HeaderField>)
    ensures
        field_models(r@) == prefix_fields(bytes@, indices@),
        bytes@.len() <= usize::MAX,
{
    let count: usize = bytes.len();
    let mut fields: Vec<HeaderField> = Vec::new();
    if indices.len() == 0 {
        fields.push(HeaderField::Fixed { bytes });
        assert(field_models(fields@) =~= seq![Field::Fixed(bytes@)]);
        return fields;
    }
    let mut run: Vec<u8> = Vec::new();
    let mut i: usize = 0;
    assert(field_models(fields@) =~= Seq::<Field>::empty());
    while i < count
        invariant
            count == bytes.len(),
            i <= count,
            run@ == open_run(bytes@, indices@, i as nat),
            field_models(fields@) == closed_fields(bytes@, indices@, i as nat),
        decreases count - i,
    {
        if has_index(indices, i) {
            if run.len() > 0 {
                let ghost before = fields@;
                let mut taken: Vec<u8> = Vec::new();
                std::mem::swap(&mut taken, &mut run);
                fields.push(HeaderField::Fixed { bytes: taken });
                assert(field_models(fields@) =~= field_models(before) + run_fields(taken@));
            } else {
                assert(field_models(fields@) =~= field_models(fields@) + run_fields(run@));
            }
            let ghost before = fields@;
            fields.push(HeaderField::Random { len: 1 });
            assert(field_models(fields@) =~= field_models(before) + seq![Field::Random(1)]);
            assert(run@ =~= open_run(bytes@, indices@, (i + 1) as nat));
        } else {
            run.push(bytes[i]);
        }
        i = i + 1;
    }
    if run.len() > 0 {
        let ghost before = fields@;
        let ghost last = run@;
        fields.push(HeaderField::Fixed { bytes: run });
        assert(field_models(fields@) =~= field_models(before) + run_fields(last));
    } else {
        assert(field_models(fields@) =~= field_models(fields@) + run_fields(run@));
    }
    fields
}

/// Every field gave as many bytes as it declares.
pub open spec fn drawn_to_length(fields: Seq<Field>, log: DrawLog) -> bool {
    forall|k: int|
        0 <= k <= fields.len() ==> (#[trigger] header_bytes(fields.take(k), log)).len()
            == fields_len(fields.take(k))
}

/// The number by which the counter field at a position is advanced.
pub open spec fn counter_advance(fields: Seq<Field>, log: DrawLog, k: int) -> u64
    recommends
        0 <= k < fields.len() && fields[k] is CounterLike,
{
    let before = header_log(fields.take(k), log);
    match fields[k] {
        Field::CounterLike(_, _, _, step) => drawn_large(
            before.seed,
            before.draws,
            0,
            counter_reach(step) as u64,
        ),
        _ => 0,
    }
}

/// Every counter was advanced by no more than its reach.
pub open spec fn drawn_in_reach(fields: Seq<Field>, log: DrawLog) -> bool {
    forall|k: int|
        0 <= k < fields.len() ==> ((#[trigger] fields[k]) matches Field::CounterLike(_, _, _, step)
            ==> counter_advance(fields, log, k) <= counter_reach(step))
}

/// The length of a prefix of the fields is no more than that of all of them.
proof fn lemma_fields_len_prefix(fields: Seq<Field>, k: int)
    requires
        0 <= k <= fields.len(),
    ensures
        fields_len(fields.take(k)) <= fields_len(fields),
    decreases fields.len(),
{
    if k == fields.len() {
        assert(fields.take(k) =~= fields);
    } else {
        assert(fields.drop_last().take(k) =~= fields.take(k));
        lemma_fields_len_prefix(fields.drop_last(), k);
    }
}

/// Appends the bytes of one field to a header.
fn emit_field(header: &mut Vec<u8>, field: &HeaderField, rng: &mut MaskRng)
    requires
        field_len(field@) <= isize::MAX,
        field@ matches Field::CounterLike(_, _, _, step) ==> counter_reach(step) <= u64::MAX,
    ensures
        final(header)@ == old(header)@ + field_bytes(field@, old(rng)@),
        field_bytes(field@, old(rng)@).len() == field_len(field@),
        final(rng)@ == field_log(field@, old(rng)@),
        field@ matches Field::CounterLike(_, _, _, step) ==> drawn_large(
            old(rng)@.seed,
            old(rng)@.draws,
            0,
            counter_reach(step) as u64,
        ) <= counter_reach(step),
{
    let mut bytes: Vec<u8> = match field {
        HeaderField::Fixed { bytes } => copy_bytes(bytes),
        HeaderField::Random { len } => rng.bytes(*len),
        HeaderField::Length { len, endian } => encode_semantic_u64(0, *len, *endian),
        HeaderField::Id { len, mode } => match mode {
            IdFieldMode::Random => rng.bytes(*len),
            IdFieldMode::Zero => {
                let zero_bytes: Vec<u8> = vec![0u8; *len];
                assert(zero_bytes@ =~= zeros(*len as nat));
                zero_bytes
            },
        },
        HeaderField::CounterLike { len, endian, start, step } => {
            let unit: u64 = if *step >= 1 {
                *step
            } else {
                1
            };
            let by: u64 = rng.large(0, unit * 1024);
            encode_semantic_u64(start.saturating_add(by), *len, *endian)
        },
    };
    header.append(&mut bytes);
}

impl HeaderSpec {
    /// A specification of typed fields.
    pub fn structured(fields: Vec<HeaderField>) -> (r: Self)
        ensures
            r@ == Spec::Structured(field_models(fields@)),
    {
        HeaderSpec::Structured { fields }
    }

    /// The fields of this specification.
    pub fn fields(&self) -> (r: Vec<HeaderField>)
        ensures
            field_models(r@) == spec_fields(self@),
            self@ matches Spec::RawPrefix(prefix_hex, _) ==> prefix_bytes(prefix_hex).len()
                <= usize::MAX,
    {
        match self {
            HeaderSpec::Structured { fields } => copy_fields(fields),
            HeaderSpec::RawPrefix { prefix_hex, randomize_indices } => {
                let bytes = match decode(prefix_hex.as_str()) {
                    Some(bytes) => bytes,
                    None => {
                        let fallback: Vec<u8> = vec![0x00, 0x01, 0x02, 0x03];
                        assert(fallback@ =~= fallback_prefix());
                        fallback
                    },
                };
                split_prefix(bytes, randomize_indices)
            },
        }
    }

    /// A header of this specification. The bytes of random fields come from the
    /// generator, so that they differ from header to header.
    pub fn generate(&self, rng: &mut MaskRng) -> (r: Vec<u8>)
        requires
            fields_len(spec_fields(self@)) <= isize::MAX,
            counters_fit(spec_fields(self@)),
        ensures
            r@ == header_bytes(spec_fields(self@), old(rng)@),
            r@.len() == fields_len(spec_fields(self@)),
            drawn_to_length(spec_fields(self@), old(rng)@),
            drawn_in_reach(spec_fields(self@), old(rng)@),
            final(rng)@ == header_log(spec_fields(self@), old(rng)@),
    {
        let fields = self.fields();
        let ghost models = field_models(fields@);
        let ghost start = rng@;
        let mut header: Vec<u8> = Vec::new();
        let mut i: usize = 0;
        assert(models.take(0) =~= Seq::<Field>::empty());
        while i < fields.len()
            invariant
                i <= fields.len(),
                models == field_models(fields@),
                counters_fit(models),
                fields_len(models) <= isize::MAX,
                header@ == header_bytes(models.take(i as int), start),
                rng@ == header_log(models.take(i as int), start),
                forall|k: int|
                    0 <= k <= i ==> (#[trigger] header_bytes(models.take(k), start)).len()
                        == fields_len(models.take(k)),
                forall|k: int|
                    0 <= k < i ==> ((#[trigger] models[k]) matches Field::CounterLike(_, _, _, step)
                        ==> counter_advance(models, start, k) <= counter_reach(step)),
            decreases fields.len() - i,
        {
            proof {
                let next = models.take(i + 1);
                assert(next.drop_last() =~= models.take(i as int));
                assert(next.last() == fields[i as int]@);
                assert(models[i as int] == fields[i as int]@);
                lemma_fields_len_prefix(models, i + 1);
            }
            emit_field(&mut header, &fields[i], rng);
            i = i + 1;
        }
        assert(models.take(i as int) =~= models);
        header
    }

    /// The number of bytes of every header of this specification.
    pub fn min_length(&self) -> (r: usize)
        requires
            self@ is Structured ==> fields_len(spec_fields(self@)) <= usize::MAX,
        ensures
            r == fields_len(spec_fields(self@)),
    {
        let fields = self.fields();
        let ghost models = field_models(fields@);
        proof {
            if let Spec::RawPrefix(prefix_hex, indices) = self@ {
                law_raw_prefix_length(prefix_bytes(prefix_hex), indices);
            }
        }
        let mut total: usize = 0;
        let mut i: usize = 0;
        assert(models.take(0) =~= Seq::<Field>::empty());
        while i < fields.len()
            invariant
                i <= fields.len(),
                models == field_models(fields@),
                fields_len(models) <= usize::MAX,
                total == fields_len(models.take(i as int)),
            decreases fields.len() - i,
        {
            proof {
                let next = models.take(i + 1);
                assert(next.drop_last() =~= models.take(i as int));
                assert(next.last() == fields[i as int]@);
                lemma_fields_len_prefix(models, i + 1);
            }
            let len: usize = match &fields[i] {
                HeaderField::Fixed { bytes } => bytes.len(),
                HeaderField::Random { len } => *len,
                HeaderField::Length { len, .. } => *len,
                HeaderField::Id { len, .. } => *len,
                HeaderField::CounterLike { len, .. } => *len,
            };
            total = total + len;
            i = i + 1;
        }
        assert(models.take(i as int) =~= models);
        total
    }

    /// The header that a generator of seed zero gives: the same bytes on every
    /// call.
    pub fn generate_static(&self) -> (r: Vec<u8>)
        requires
            fields_len(spec_fields(self@)) <= isize::MAX,
            counters_fit(spec_fields(self@)),
        ensures
            r@ == header_bytes(spec_fields(self@), fresh(0)),
            r@.len() == fields_len(spec_fields(self@)),
            drawn_to_length(spec_fields(self@), fresh(0)),
            drawn_in_reach(spec_fields(self@), fresh(0)),
    {
        let mut rng = MaskRng::seed_from_u64(0);
        self.generate(&mut rng)
    }
}

/// The fields of a STUN binding request.
pub open spec fn stun_fields(magic_cookie: bool) -> Seq<Field> {
    seq![
        Field::Fixed(seq![0x00u8, 0x01]),
        Field::Length(2, HeaderEndian::Big),
        Field::Fixed(
            if magic_cookie {
                seq![0x21u8, 0x12, 0xA4, 0x42]
            } else {
                seq![0x00u8, 0x00, 0x00, 0x00]
            },
        ),
        Field::Id(12, IdFieldMode::Random),
    ]
}

/// A connection identifier length brought into the range from eight to twenty.
pub open spec fn dcid_clamped(dcid_len: u8) -> u8 {
    if dcid_len < 8 {
        8
    } else if dcid_len > 20 {
        20
    } else {
        dcid_len
    }
}

/// The fields of a QUIC initial packet.
pub open spec fn quic_fields(version: u32, dcid_len: u8) -> Seq<Field> {
    seq![
        Field::Fixed(seq![0xC0u8]),
        Field::Fixed(encoded(version as u64, 4, HeaderEndian::Big)),
        Field::Fixed(seq![dcid_clamped(dcid_len)]),
        Field::Id(dcid_clamped(dcid_len) as usize, IdFieldMode::Random),
    ]
}

/// The fields of a DNS query with one question.
pub open spec fn dns_fields(flags: u16) -> Seq<Field> {
    seq![
        Field::Id(2, IdFieldMode::Random),
        Field::Fixed(encoded(flags as u64, 2, HeaderEndian::Big)),
        Field::Fixed(seq![0x00u8, 0x01, 0x00, 0x00, 0x00, 0x00, 0x00, 0x00]),
    ]
}

/// The fields of a TLS record.
pub open spec fn tls_fields(content_type: u8, version: u16) -> Seq<Field> {
    seq![
        Field::Fixed(seq![content_type]),
        Field::Fixed(encoded(version as u64, 2, HeaderEndian::Big)),
        Field::Length(2, HeaderEndian::Big),
    ]
}

impl HeaderSpec {
    /// A STUN binding request with the magic cookie.
    pub fn stun_binding() -> (r: Self)
        ensures
            r@ == Spec::Structured(stun_fields(true)),
    {
        Self::stun_binding_with_cookie(true)
    }

    /// A STUN binding request, with the magic cookie or with zeros in its place.
    pub fn stun_binding_with_cookie(magic_cookie: bool) -> (r: Self)
        ensures
            r@ == Spec::Structured(stun_fields(magic_cookie)),
    {
        let kind: Vec<u8> = vec![0x00, 0x01];
        let cookie: Vec<u8> = if magic_cookie {
            vec![0x21, 0x12, 0xA4, 0x42]
        } else {
            vec![0x00, 0x00, 0x00, 0x00]
        };
        assert(kind@ =~= seq![0x00u8, 0x01]);
        assert(magic_cookie ==> cookie@ =~= seq![0x21u8, 0x12, 0xA4, 0x42]);
        assert(!magic_cookie ==> cookie@ =~= seq![0x00u8, 0x00, 0x00, 0x00]);
        let fields: Vec<HeaderField> = vec![
            HeaderField::Fixed { bytes: kind },
            HeaderField::Length { len: 2, endian: HeaderEndian::Big },
            HeaderField::Fixed { bytes: cookie },
            HeaderField::Id { len: 12, mode: IdFieldMode::Random },
        ];
        assert(field_models(fields@) =~= stun_fields(magic_cookie));
        Self::structured(fields)
    }

    /// A QUIC initial packet. The length of the connection identifier is brought
    /// into the range from eight to twenty.
    pub fn quic_initial(version: u32, dcid_len: u8) -> (r: Self)
        ensures
            r@ == Spec::Structured(quic_fields(version, dcid_len)),
    {
        let len: u8 = if dcid_len < 8 {
            8
        } else if dcid_len > 20 {
            20
        } else {
            dcid_len
        };
        let form: Vec<u8> = vec![0xC0];
        let version_bytes = encode_semantic_u64(version as u64, 4, HeaderEndian::Big);
        let len_byte: Vec<u8> = vec![len];
        assert(form@ =~= seq![0xC0u8]);
        assert(len_byte@ =~= seq![dcid_clamped(dcid_len)]);
        let fields: Vec<HeaderField> = vec![
            HeaderField::Fixed { bytes: form },
            HeaderField::Fixed { bytes: version_bytes },
            HeaderField::Fixed { bytes: len_byte },
            HeaderField::Id { len: len as usize, mode: IdFieldMode::Random },
        ];
        assert(field_models(fields@) =~= quic_fields(version, dcid_len));
        Self::structured(fields)
    }

    /// A DNS query with one question.
    pub fn dns_query(flags: u16) -> (r: Self)
        ensures
            r@ == Spec::Structured(dns_fields(flags)),
    {
        let flag_bytes = encode_semantic_u64(flags as u64, 2, HeaderEndian::Big);
        let counts: Vec<u8> = vec![0x00, 0x01, 0x00, 0x00, 0x00, 0x00, 0x00, 0x00];
        assert(counts@ =~= seq![0x00u8, 0x01, 0x00, 0x00, 0x00, 0x00, 0x00, 0x00]);
        let fields: Vec<HeaderField> = vec![
            HeaderField::Id { len: 2, mode: IdFieldMode::Random },
            HeaderField::Fixed { bytes: flag_bytes },
            HeaderField::Fixed { bytes: counts },
        ];
        assert(field_models(fields@) =~= dns_fields(flags));
        Self::structured(fields)
    }

    /// A TLS record.
    pub fn tls_record(content_type: u8, version: u16) -> (r: Self)
        ensures
            r@ == Spec::Structured(tls_fields(content_type, version)),
    {
        let kind: Vec<u8> = vec![content_type];
        let version_bytes = encode_semantic_u64(version as u64, 2, HeaderEndian::Big);
        assert(kind@ =~= seq![content_type]);
        let fields: Vec<HeaderField> = vec![
            HeaderField::Fixed { bytes: kind },
            HeaderField::Fixed { bytes: version_bytes },
            HeaderField::Length { len: 2, endian: HeaderEndian::Big },
        ];
        assert(field_models(fields@) =~= tls_fields(content_type, version));
        Self::structured(fields)
    }
}

/// In every header, every field stands directly behind the fields before it,
/// with the bytes that it gives there.
pub proof fn law_fields_stand_in_order(fields: Seq<Field>, log: DrawLog, k: int)
    requires
        0 <= k < fields.len(),
        drawn_to_length(fields, log),
    ensures
        fields_len(fields.take(k)) + field_len(fields[k]) == fields_len(fields.take(k + 1))
            <= header_bytes(fields, log).len(),
        header_bytes(fields, log).subrange(
            fields_len(fields.take(k)) as int,
            fields_len(fields.take(k + 1)) as int,
        ) == field_bytes(fields[k], header_log(fields.take(k), log)),
    decreases fields.len(),
{
    let n = fields.len() as int;
    let front = fields.drop_last();
    assert(fields.take(n) =~= fields);
    assert(fields.take(n - 1) =~= front);
    assert(header_bytes(fields.take(n), log).len() == fields_len(fields));
    assert(header_bytes(fields.take(n - 1), log).len() == fields_len(front));
    assert(fields.take(k + 1).drop_last() =~= fields.take(k));
    assert(fields.take(k + 1).last() == fields[k]);
    lemma_fields_len_prefix(fields, k + 1);
    if k == n - 1 {
        assert(header_bytes(fields, log).subrange(fields_len(front) as int, fields_len(fields) as int)
            =~= field_bytes(fields.last(), header_log(front, log)));
    } else {
        assert forall|j: int| 0 <= j <= front.len() implies (#[trigger] header_bytes(
            front.take(j),
            log,
        )).len() == fields_len(front.take(j)) by {
            assert(front.take(j) =~= fields.take(j));
            assert(header_bytes(fields.take(j), log).len() == fields_len(fields.take(j)));
        }
        law_fields_stand_in_order(front, log, k);
        assert(front.take(k) =~= fields.take(k));
        assert(front.take(k + 1) =~= fields.take(k + 1));
        let a = fields_len(fields.take(k)) as int;
        let b = fields_len(fields.take(k + 1)) as int;
        assert(header_bytes(fields, log).subrange(a, b) =~= header_bytes(front, log).subrange(a, b));
    }
}

/// In every header, each field of random bytes and each random identifier is filled by one
/// request for as many bytes as the field has, in full; no field but these and the counters
/// asks the generator for anything.
pub proof fn law_random_fields_are_drawn_whole(fields: Seq<Field>, log: DrawLog, k: int)
    requires
        0 <= k < fields.len(),
        drawn_to_length(fields, log),
    ensures
        ({
            let before = header_log(fields.take(k), log);
            let after = header_log(fields.take(k + 1), log);
            let start = fields_len(fields.take(k)) as int;
            let header = header_bytes(fields, log);
            match fields[k] {
                Field::Random(len) | Field::Id(len, IdFieldMode::Random) => {
                    &&& start + len <= header.len()
                    &&& header.subrange(start, start + len) == drawn_bytes(
                        before.seed,
                        before.draws,
                        len as nat,
                    )
                    &&& drawn_bytes(before.seed, before.draws, len as nat).len() == len
                    &&& after.seed == before.seed
                    &&& after.draws == before.draws.push(Draw::Bytes(len as nat))
                },
                Field::CounterLike(_, _, _, step) => {
                    &&& after.seed == before.seed
                    &&& after.draws == before.draws.push(
                        Draw::Large(
                            0,
                            (if step == 0 {
                                1024
                            } else {
                                1024 * step
                            }) as u64,
                        ),
                    )
                },
                _ => after == before,
            }
        }),
{
    law_fields_stand_in_order(fields, log, k);
    assert(fields.take(k + 1).drop_last() =~= fields.take(k));
    assert(fields.take(k + 1).last() == fields[k]);
    assert(fields.take(k + 1) =~= fields.take(k).push(fields[k]));
    let start = fields_len(fields.take(k)) as int;
    let end = fields_len(fields.take(k + 1)) as int;
    assert(header_bytes(fields, log).subrange(start, end).len() == end - start);
}

/// In every header, fixed bytes stand as they are declared, and lengths and zero identifiers
/// are zero in every byte; each where the fields before it end.
pub proof fn law_other_fields_are_constant(fields: Seq<Field>, log: DrawLog, k: int, i: int)
    requires
        0 <= k < fields.len(),
        drawn_to_length(fields, log),
    ensures
        ({
            let start = fields_len(fields.take(k)) as int;
            let header = header_bytes(fields, log);
            match fields[k] {
                Field::Fixed(bytes) => 0 <= i < bytes.len() ==> start + i < header.len()
                    && header[start + i] == bytes[i],
                Field::Length(len, _) | Field::Id(len, IdFieldMode::Zero) => 0 <= i < len ==> start
                    + i < header.len() && header[start + i] == 0,
                _ => true,
            }
        }),
{
    law_fields_stand_in_order(fields, log, k);
    assert(fields.take(k + 1).drop_last() =~= fields.take(k));
    assert(fields.take(k + 1).last() == fields[k]);
    let start = fields_len(fields.take(k)) as int;
    let end = fields_len(fields.take(k + 1)) as int;
    let part = header_bytes(fields, log).subrange(start, end);
    if 0 <= i < end - start {
        assert(part[i] == header_bytes(fields, log)[start + i]);
        if let Field::Length(len, _) = fields[k] {
            lemma_zero_encoded(len as nat);
        }
    }
}

/// In every header, the number in a counter field lies between the start of the counter and
/// its reach beyond the start, or is the largest 64-bit number where the sum has no room; it
/// never wraps around.
pub proof fn law_counters_stay_in_reach(fields: Seq<Field>, log: DrawLog, k: int)
    requires
        0 <= k < fields.len(),
        fields[k] is CounterLike,
        drawn_to_length(fields, log),
        drawn_in_reach(fields, log),
    ensures
        fields[k] matches Field::CounterLike(len, endian, start, step) ==> {
            let by = counter_advance(fields, log, k);
            let value = advanced(start, by);
            &&& by <= counter_reach(step)
            &&& start <= value <= start + counter_reach(step)
            &&& value == start + by || (value == u64::MAX && start + by > u64::MAX)
            &&& header_bytes(fields, log).subrange(
                fields_len(fields.take(k)) as int,
                fields_len(fields.take(k + 1)) as int,
            ) == encoded(value, len as nat, endian)
        },
{
    law_fields_stand_in_order(fields, log, k);
}

/// The length of two sequences of fields, one behind the other.
proof fn lemma_fields_len_concat(a: Seq<Field>, b: Seq<Field>)
    ensures
        fields_len(a + b) == fields_len(a) + fields_len(b),
    decreases b.len(),
{
    if b.len() == 0 {
        assert(a + b =~= a);
    } else {
        assert((a + b).drop_last() =~= a + b.drop_last());
        assert((a + b).last() == b.last());
        lemma_fields_len_concat(a, b.drop_last());
    }
}

/// The length of one field.
proof fn lemma_single_field_len(f: Field)
    ensures
        fields_len(seq![f]) == field_len(f),
{
    assert(seq![f].drop_last() =~= Seq::<Field>::empty());
    assert(fields_len(Seq::<Field>::empty()) == 0);
}

/// The fields of the first bytes of a prefix are as long as those bytes.
proof fn lemma_prefix_len(bytes: Seq<u8>, indices: Seq<usize>, n: nat)
    requires
        n <= bytes.len(),
    ensures
        fields_len(closed_fields(bytes, indices, n)) + open_run(bytes, indices, n).len() == n,
        forall|j: int|
            0 <= j < open_run(bytes, indices, n).len() ==> #[trigger] open_run(bytes, indices, n)[j]
                == bytes[n - open_run(bytes, indices, n).len() + j],
    decreases n,
{
    if n > 0 {
        let i = (n - 1) as nat;
        lemma_prefix_len(bytes, indices, i);
        if indices.contains(i as usize) {
            let c = closed_fields(bytes, indices, i);
            let r = open_run(bytes, indices, i);
            lemma_fields_len_concat(c, run_fields(r));
            lemma_fields_len_concat(c + run_fields(r), seq![Field::Random(1)]);
            lemma_single_field_len(Field::Random(1));
            lemma_single_field_len(Field::Fixed(r));
        }
    }
}

/// A raw prefix gives headers that are as long as the prefix.
pub proof fn law_raw_prefix_length(bytes: Seq<u8>, indices: Seq<usize>)
    ensures
        fields_len(prefix_fields(bytes, indices)) == bytes.len(),
        counters_fit(prefix_fields(bytes, indices)),
{
    if indices.len() == 0 {
        lemma_single_field_len(Field::Fixed(bytes));
    } else {
        let c = closed_fields(bytes, indices, bytes.len());
        let r = open_run(bytes, indices, bytes.len());
        lemma_prefix_len(bytes, indices, bytes.len());
        lemma_fields_len_concat(c, run_fields(r));
        lemma_single_field_len(Field::Fixed(r));
        lemma_no_counters(bytes, indices, bytes.len());
    }
}

/// A prefix has no counters.
proof fn lemma_no_counters(bytes: Seq<u8>, indices: Seq<usize>, n: nat)
    ensures
        forall|i: int|
            0 <= i < closed_fields(bytes, indices, n).len() ==> !((#[trigger] closed_fields(
                bytes,
                indices,
                n,
            )[i]) is CounterLike),
    decreases n,
{
    if n > 0 {
        lemma_no_counters(bytes, indices, (n - 1) as nat);
    }
}

/// The bytes of two sequences of fields, one behind the other.
proof fn lemma_header_concat(a: Seq<Field>, b: Seq<Field>, log: DrawLog)
    ensures
        header_bytes(a + b, log) == header_bytes(a, log) + header_bytes(b, header_log(a, log)),
        header_log(a + b, log) == header_log(b, header_log(a, log)),
    decreases b.len(),
{
    if b.len() == 0 {
        assert(a + b =~= a);
        assert(header_bytes(b, header_log(a, log)) =~= Seq::<u8>::empty());
        assert(header_bytes(a, log) + Seq::<u8>::empty() =~= header_bytes(a, log));
    } else {
        assert((a + b).drop_last() =~= a + b.drop_last());
        assert((a + b).last() == b.last());
        lemma_header_concat(a, b.drop_last(), log);
        assert(header_bytes(a + b, log) =~= header_bytes(a, log) + header_bytes(
            b,
            header_log(a, log),
        ));
    }
}

/// The header of one field.
proof fn lemma_single_header(f: Field, log: DrawLog)
    ensures
        header_bytes(seq![f], log) == field_bytes(f, log),
{
    assert(seq![f].drop_last() =~= Seq::<Field>::empty());
    assert(header_bytes(Seq::<Field>::empty(), log) == Seq::<u8>::empty());
    assert(header_log(Seq::<Field>::empty(), log) == log);
    assert(header_bytes(seq![f], log) =~= field_bytes(f, log));
}

/// If all fields gave as many bytes as they declare, so did the first ones.
proof fn lemma_prefix_of_drawn(a: Seq<Field>, b: Seq<Field>, log: DrawLog)
    requires
        drawn_to_length(a + b, log),
    ensures
        drawn_to_length(a, log),
        header_bytes(a, log).len() == fields_len(a),
{
    assert forall|k: int| 0 <= k <= a.len() implies (#[trigger] header_bytes(a.take(k), log)).len()
        == fields_len(a.take(k)) by {
        assert((a + b).take(k) =~= a.take(k));
        assert(header_bytes((a + b).take(k), log).len() == fields_len((a + b).take(k)));
    }
    assert(a.take(a.len() as int) =~= a);
    assert(header_bytes(a.take(a.len() as int), log).len() == fields_len(a));
}

/// The bytes of a prefix stand at their positions.
proof fn lemma_prefix_positions(bytes: Seq<u8>, indices: Seq<usize>, n: nat, log: DrawLog)
    requires
        n <= bytes.len() <= usize::MAX,
        drawn_to_length(closed_fields(bytes, indices, n), log),
    ensures
        ({
            let header = header_bytes(closed_fields(bytes, indices, n), log);
            &&& header.len() + open_run(bytes, indices, n).len() == n
            &&& forall|i: int|
                0 <= i < header.len() && !indices.contains(i as usize) ==> #[trigger] header[i]
                    == bytes[i]
        }),
    decreases n,
{
    let all = closed_fields(bytes, indices, n);
    lemma_prefix_len(bytes, indices, n);
    assert(all + Seq::<Field>::empty() =~= all);
    lemma_prefix_of_drawn(all, Seq::empty(), log);
    if n > 0 {
        let i = (n - 1) as nat;
        let c = closed_fields(bytes, indices, i);
        let r = open_run(bytes, indices, i);
        lemma_prefix_len(bytes, indices, i);
        if indices.contains(i as usize) {
            let front = c + run_fields(r);
            let tail = seq![Field::Random(1)];
            lemma_prefix_of_drawn(front, tail, log);
            lemma_prefix_of_drawn(c, run_fields(r), log);
            lemma_prefix_positions(bytes, indices, i, log);
            lemma_header_concat(front, tail, log);
            lemma_header_concat(c, run_fields(r), log);
            lemma_single_header(Field::Fixed(r), header_log(c, log));
            lemma_single_header(Field::Random(1), header_log(front, log));
            let header = header_bytes(all, log);
            let h = header_bytes(c, log);
            assert(header_bytes(run_fields(r), header_log(c, log)) =~= r);
            assert forall|j: int|
                0 <= j < header.len() && !indices.contains(j as usize) implies #[trigger] header[j]
                == bytes[j] by {
                if j < h.len() {
                    assert(header[j] == h[j]);
                } else if j < h.len() + r.len() {
                    assert(header[j] == r[j - h.len()]);
                }
            }
        } else {
            lemma_prefix_positions(bytes, indices, i, log);
        }
    }
}

/// Every header of a raw prefix is as long as the prefix and holds its bytes at
/// every position that is not listed as random.
pub proof fn law_raw_prefix_keeps_fixed_bytes(bytes: Seq<u8>, indices: Seq<usize>, log: DrawLog)
    requires
        bytes.len() <= usize::MAX,
        drawn_to_length(prefix_fields(bytes, indices), log),
    ensures
        header_bytes(prefix_fields(bytes, indices), log).len() == bytes.len(),
        forall|i: int|
            0 <= i < bytes.len() && !indices.contains(i as usize) ==> #[trigger] header_bytes(
                prefix_fields(bytes, indices),
                log,
            )[i] == bytes[i],
{
    if indices.len() == 0 {
        lemma_single_header(Field::Fixed(bytes), log);
    } else {
        let n = bytes.len();
        let c = closed_fields(bytes, indices, n);
        let r = open_run(bytes, indices, n);
        lemma_prefix_len(bytes, indices, n);
        lemma_prefix_of_drawn(c, run_fields(r), log);
        lemma_prefix_positions(bytes, indices, n, log);
        lemma_header_concat(c, run_fields(r), log);
        lemma_single_header(Field::Fixed(r), header_log(c, log));
        let header = header_bytes(prefix_fields(bytes, indices), log);
        let h = header_bytes(c, log);
        assert(header_bytes(run_fields(r), header_log(c, log)) =~= r);
        assert forall|i: int| 0 <= i < n && !indices.contains(i as usize) implies #[trigger] header[i]
            == bytes[i] by {
            if i < h.len() {
                assert(header[i] == h[i]);
            } else {
                assert(header[i] == r[i - h.len()]);
            }
        }
    }
}

/// The headers of the known protocols have the lengths of those protocols'
/// headers, for every parameter.
pub proof fn law_protocol_lengths(
    magic_cookie: bool,
    version: u32,
    dcid_len: u8,
    flags: u16,
    content_type: u8,
    record_version: u16,
)
    ensures
        fields_len(stun_fields(magic_cookie)) == 20,
        fields_len(quic_fields(version, dcid_len)) == 6 + dcid_clamped(dcid_len),
        fields_len(dns_fields(flags)) == 12,
        fields_len(tls_fields(content_type, record_version)) == 5,
        counters_fit(stun_fields(magic_cookie)),
        counters_fit(quic_fields(version, dcid_len)),
        counters_fit(dns_fields(flags)),
        counters_fit(tls_fields(content_type, record_version)),
{
    lemma_three_fields_len(dns_fields(flags));
    lemma_three_fields_len(tls_fields(content_type, record_version));
    let s = stun_fields(magic_cookie);
    let q = quic_fields(version, dcid_len);
    lemma_three_fields_len(s.drop_last());
    lemma_three_fields_len(q.drop_last());
}

/// The length of three fields.
proof fn lemma_three_fields_len(f: Seq<Field>)
    requires
        f.len() == 3,
    ensures
        fields_len(f) == field_len(f[0]) + field_len(f[1]) + field_len(f[2]),
{
    let a = f.drop_last();
    let b = a.drop_last();
    assert(fields_len(b.drop_last()) == 0);
    assert(fields_len(b) == field_len(f[0]));
    assert(fields_len(a) == field_len(f[0]) + field_len(f[1]));
}

/// Every STUN binding request starts with its type and a length of zero, and holds
/// the cookie, or zeros in its place.
pub proof fn law_stun_bytes(magic_cookie: bool, log: DrawLog)
    requires
        drawn_to_length(stun_fields(magic_cookie), log),
    ensures
        ({
            let header = header_bytes(stun_fields(magic_cookie), log);
            &&& header.len() == 20
            &&& header.subrange(0, 2) == seq![0x00u8, 0x01]
            &&& header.subrange(2, 4) == seq![0x00u8, 0x00]
            &&& header.subrange(4, 8) == if magic_cookie {
                seq![0x21u8, 0x12, 0xA4, 0x42]
            } else {
                seq![0x00u8, 0x00, 0x00, 0x00]
            }
        }),
{
    let fields = stun_fields(magic_cookie);
    law_protocol_lengths(magic_cookie, 0, 0, 0, 0, 0);
    lemma_leading_fields(fields, log);
    assert(fields.take(4) =~= fields);
    assert(header_bytes(fields.take(4), log).len() == fields_len(fields.take(4)));
    lemma_zero_encoded(2);
}

/// Every QUIC initial packet starts with the long header byte, the version and the
/// length of the connection identifier.
pub proof fn law_quic_bytes(version: u32, dcid_len: u8, log: DrawLog)
    requires
        drawn_to_length(quic_fields(version, dcid_len), log),
    ensures
        ({
            let header = header_bytes(quic_fields(version, dcid_len), log);
            &&& header.len() == 6 + dcid_clamped(dcid_len)
            &&& header.subrange(0, 1) == seq![0xC0u8]
            &&& header.subrange(1, 5) == encoded(version as u64, 4, HeaderEndian::Big)
            &&& header.subrange(5, 6) == seq![dcid_clamped(dcid_len)]
        }),
{
    let fields = quic_fields(version, dcid_len);
    law_protocol_lengths(true, version, dcid_len, 0, 0, 0);
    lemma_leading_fields(fields, log);
    assert(fields.take(4) =~= fields);
    assert(header_bytes(fields.take(4), log).len() == fields_len(fields.take(4)));
}

/// Every DNS query holds its flags and asks one question.
pub proof fn law_dns_bytes(flags: u16, log: DrawLog)
    requires
        drawn_to_length(dns_fields(flags), log),
    ensures
        ({
            let header = header_bytes(dns_fields(flags), log);
            &&& header.len() == 12
            &&& header.subrange(2, 4) == encoded(flags as u64, 2, HeaderEndian::Big)
            &&& header.subrange(4, 12) == seq![0x00u8, 0x01, 0x00, 0x00, 0x00, 0x00, 0x00, 0x00]
        }),
{
    let fields = dns_fields(flags);
    law_protocol_lengths(true, 0, 0, flags, 0, 0);
    lemma_leading_fields(fields, log);
    assert(fields.take(3) =~= fields);
    assert(header_bytes(fields.take(3), log).len() == fields_len(fields.take(3)));
}

/// Every TLS record starts with its content type and version; its length is left
/// zero.
pub proof fn law_tls_bytes(content_type: u8, version: u16, log: DrawLog)
    requires
        drawn_to_length(tls_fields(content_type, version), log),
    ensures
        header_bytes(tls_fields(content_type, version), log) == seq![content_type] + encoded(
            version as u64,
            2,
            HeaderEndian::Big,
        ) + seq![0x00u8, 0x00],
{
    let fields = tls_fields(content_type, version);
    let header = header_bytes(fields, log);
    law_protocol_lengths(true, 0, 0, 0, content_type, version);
    lemma_leading_fields(fields, log);
    lemma_zero_encoded(2);
    assert(fields.take(3) =~= fields);
    assert(header_bytes(fields.take(3), log).len() == fields_len(fields.take(3)));
    assert(header =~= header.subrange(0, 1) + header.subrange(1, 3) + header.subrange(3, 5));
}

/// The first three fields of a header, one behind the other.
proof fn lemma_leading_fields(fields: Seq<Field>, log: DrawLog)
    requires
        fields.len() >= 3,
        drawn_to_length(fields, log),
    ensures
        ({
            let header = header_bytes(fields, log);
            let a = field_len(fields[0]) as int;
            let b = a + field_len(fields[1]);
            let c = b + field_len(fields[2]);
            &&& c <= header.len()
            &&& header.subrange(0, a) == field_bytes(fields[0], header_log(fields.take(0), log))
            &&& header.subrange(a, b) == field_bytes(fields[1], header_log(fields.take(1), log))
            &&& header.subrange(b, c) == field_bytes(fields[2], header_log(fields.take(2), log))
        }),
{
    law_fields_stand_in_order(fields, log, 0);
    law_fields_stand_in_order(fields, log, 1);
    law_fields_stand_in_order(fields, log, 2);
    assert(fields_len(fields.take(0)) == 0);
}

/// The number zero is encoded as zero bytes.
proof fn lemma_zero_encoded(len: nat)
    ensures
        encoded(0, len, HeaderEndian::Big) == zeros(len),
        encoded(0, len, HeaderEndian::Little) == zeros(len),
{
    assert forall|k: nat| #[trigger] byte_at(0, k) == 0 by {
        lemma_pow_positive(256, k);
        vstd::arithmetic::div_mod::lemma_div_basics_1(pow(256, k));
    }
    assert(encoded(0, len, HeaderEndian::Big) =~= zeros(len));
    assert(encoded(0, len, HeaderEndian::Little) =~= zeros(len));
}

/// Encoding keeps the number modulo the power of 256 that the length allows, in
/// either byte order.
pub proof fn law_encoding_keeps_low_bytes(value: u64, len: nat)
    ensures
        little_number(encoded(value, len, HeaderEndian::Little)) == value as int % pow(256, len),
        encoded(value, len, HeaderEndian::Big) == encoded(
            value,
            len,
            HeaderEndian::Little,
        ).reverse(),
{
    assert(encoded(value, len, HeaderEndian::Big) =~= encoded(
        value,
        len,
        HeaderEndian::Little,
    ).reverse());
    lemma_little_number(value, len);
}

/// The number that the lowest bytes of a number stand for.
proof fn lemma_little_number(value: u64, len: nat)
    ensures
        little_number(encoded(value, len, HeaderEndian::Little)) == value as int % pow(256, len),
    decreases len,
{
    let e = encoded(value, len, HeaderEndian::Little);
    lemma_pow0(256);
    lemma_pow1(256);
    if len > 0 {
        let j = (len - 1) as nat;
        let rest = (value / 256) as u64;
        lemma_little_number(rest, j);
        assert forall|i: int| 0 <= i < j implies e.drop_first()[i] == #[trigger] encoded(
            rest,
            j,
            HeaderEndian::Little,
        )[i] by {
            lemma_pow_positive(256, i as nat);
            lemma_pow_adds(256, 1, i as nat);
            lemma_div_denominator(value as int, 256, pow(256, i as nat));
        }
        assert(e.drop_first() =~= encoded(rest, j, HeaderEndian::Little));
        assert(e[0] == value as int % 256) by {
            assert(value as int / 1 == value);
        }
        lemma_pow_positive(256, j);
        lemma_pow_adds(256, 1, j);
        vstd::arithmetic::div_mod::lemma_mod_breakdown(value as int, 256, pow(256, j));
    } else {
        assert(value as int % 1 == 0);
    }
}

/// The number of positions below `n` that are listed.
pub open spec fn listed_below(indices: Seq<usize>, n: nat) -> nat {
    Seq::new(n, |q: int| q as usize).filter(|q: usize| indices.contains(q)).len()
}

/// One position more is listed or not.
proof fn lemma_listed_below(indices: Seq<usize>, n: nat)
    requires
        n <= usize::MAX,
    ensures
        listed_below(indices, 0) == 0,
        n > 0 ==> listed_below(indices, n) == listed_below(indices, (n - 1) as nat) + (
        if indices.contains((n - 1) as usize) {
            1nat
        } else {
            0
        }),
{
    reveal(Seq::filter);
    if n > 0 {
        let all = Seq::new(n, |q: int| q as usize);
        assert(all.drop_last() =~= Seq::new((n - 1) as nat, |q: int| q as usize));
        assert(all.last() == (n - 1) as usize);
    }
}

/// A number of requests for one byte each.
pub open spec fn single_requests(count: nat) -> Seq<Draw> {
    Seq::new(count, |i: int| Draw::Bytes(1))
}

/// The requests and the bytes of the listed positions below `n`.
proof fn lemma_listed_drawn(bytes: Seq<u8>, indices: Seq<usize>, n: nat, log: DrawLog)
    requires
        n <= bytes.len() <= usize::MAX,
        drawn_to_length(closed_fields(bytes, indices, n), log),
    ensures
        ({
            let fields = closed_fields(bytes, indices, n);
            let header = header_bytes(fields, log);
            &&& header_log(fields, log) == DrawLog {
                seed: log.seed,
                draws: log.draws + single_requests(listed_below(indices, n)),
            }
            &&& forall|i: int|
                0 <= i < n && #[trigger] indices.contains(i as usize) ==> i < header.len()
                    && header[i] == drawn_bytes(
                    log.seed,
                    log.draws + single_requests(listed_below(indices, i as nat)),
                    1,
                )[0]
        }),
    decreases n,
{
    let all = closed_fields(bytes, indices, n);
    lemma_listed_below(indices, n);
    assert(all + Seq::<Field>::empty() =~= all);
    lemma_prefix_of_drawn(all, Seq::empty(), log);
    assert(log.draws + single_requests(0) =~= log.draws);
    if n > 0 {
        let i = (n - 1) as nat;
        let c = closed_fields(bytes, indices, i);
        let r = open_run(bytes, indices, i);
        lemma_prefix_len(bytes, indices, i);
        if indices.contains(i as usize) {
            let front = c + run_fields(r);
            let tail = seq![Field::Random(1)];
            lemma_prefix_of_drawn(front, tail, log);
            lemma_prefix_of_drawn(c, run_fields(r), log);
            lemma_listed_drawn(bytes, indices, i, log);
            lemma_prefix_positions(bytes, indices, i, log);
            lemma_header_concat(front, tail, log);
            lemma_header_concat(c, run_fields(r), log);
            lemma_single_header(Field::Fixed(r), header_log(c, log));
            lemma_single_header(Field::Random(1), header_log(front, log));
            let header = header_bytes(all, log);
            let h = header_bytes(c, log);
            assert(header_bytes(run_fields(r), header_log(c, log)) =~= r);
            lemma_log_of_run(c, r, log);
            lemma_log_of_one(front, Field::Random(1), log);
            let count = listed_below(indices, i);
            assert((log.draws + single_requests(count)).push(Draw::Bytes(1)) =~= log.draws
                + single_requests(count + 1));
            let d = drawn_bytes(log.seed, log.draws + single_requests(count), 1);
            assert(header == h + r + d);
            assert(header.len() == fields_len(all)) by {
                assert(all.take(all.len() as int) =~= all);
                assert(header_bytes(all.take(all.len() as int), log).len() == fields_len(
                    all.take(all.len() as int),
                ));
            }
            lemma_prefix_len(bytes, indices, n);
            assert(d.len() == 1);
            assert forall|j: int|
                0 <= j < n && #[trigger] indices.contains(j as usize) implies j < header.len()
                && header[j] == drawn_bytes(
                log.seed,
                log.draws + single_requests(listed_below(indices, j as nat)),
                1,
            )[0] by {
                if j < i {
                    assert(h[j] == drawn_bytes(
                        log.seed,
                        log.draws + single_requests(listed_below(indices, j as nat)),
                        1,
                    )[0]);
                    assert(header[j] == h[j]);
                } else {
                    assert(j == h.len() + r.len());
                    assert(header[j] == d[0]);
                }
            }
            assert(header_log(all, log).draws == log.draws + single_requests(count + 1));
            assert(header_log(all, log).seed == log.seed);
        } else {
            lemma_listed_drawn(bytes, indices, i, log);
            let header = header_bytes(all, log);
            assert forall|j: int|
                0 <= j < n && #[trigger] indices.contains(j as usize) implies j < header.len()
                && header[j] == drawn_bytes(
                log.seed,
                log.draws + single_requests(listed_below(indices, j as nat)),
                1,
            )[0] by {
                assert(j != i);
                assert(header[j] == header_bytes(c, log)[j]);
            }
        }
    } else {
        assert(header_log(all, log) == log);
    }
}

/// The requests of one field more.
proof fn lemma_log_of_one(front: Seq<Field>, f: Field, log: DrawLog)
    ensures
        header_log(front + seq![f], log) == field_log(f, header_log(front, log)),
{
    assert((front + seq![f]).drop_last() =~= front);
}

/// A run of fixed bytes asks for nothing.
proof fn lemma_log_of_run(front: Seq<Field>, run: Seq<u8>, log: DrawLog)
    ensures
        header_log(front + run_fields(run), log) == header_log(front, log),
{
    if run.len() == 0 {
        assert(front + run_fields(run) =~= front);
    } else {
        lemma_log_of_one(front, Field::Fixed(run), log);
    }
}

/// In every header of a raw prefix, each listed position holds a byte of its own from the
/// generator: the positions are drawn one after the other, by one request for one byte each,
/// and nothing else is asked for.
pub proof fn law_raw_prefix_draws_listed_bytes(bytes: Seq<u8>, indices: Seq<usize>, log: DrawLog)
    requires
        bytes.len() <= usize::MAX,
        drawn_to_length(prefix_fields(bytes, indices), log),
    ensures
        ({
            let fields = prefix_fields(bytes, indices);
            let header = header_bytes(fields, log);
            &&& header.len() == bytes.len()
            &&& header_log(fields, log) == DrawLog {
                seed: log.seed,
                draws: log.draws + single_requests(listed_below(indices, bytes.len())),
            }
            &&& forall|i: int|
                0 <= i < bytes.len() && indices.contains(i as usize) ==> #[trigger] header[i]
                    == drawn_bytes(
                    log.seed,
                    log.draws + single_requests(listed_below(indices, i as nat)),
                    1,
                )[0]
        }),
{
    law_raw_prefix_keeps_fixed_bytes(bytes, indices, log);
    let n = bytes.len();
    if indices.len() == 0 {
        let fields = prefix_fields(bytes, indices);
        assert(Seq::<Field>::empty() + seq![Field::Fixed(bytes)] =~= fields);
        lemma_log_of_one(Seq::empty(), Field::Fixed(bytes), log);
        lemma_none_listed(indices, n);
        assert(log.draws + single_requests(0) =~= log.draws);
    } else {
        let c = closed_fields(bytes, indices, n);
        let r = open_run(bytes, indices, n);
        lemma_prefix_len(bytes, indices, n);
        lemma_prefix_of_drawn(c, run_fields(r), log);
        lemma_listed_drawn(bytes, indices, n, log);
        lemma_header_concat(c, run_fields(r), log);
        lemma_log_of_run(c, r, log);
        let header = header_bytes(prefix_fields(bytes, indices), log);
        let h = header_bytes(c, log);
        assert forall|i: int| 0 <= i < n && indices.contains(i as usize) implies #[trigger] header[i]
            == drawn_bytes(
            log.seed,
            log.draws + single_requests(listed_below(indices, i as nat)),
            1,
        )[0] by {
            assert(h[i] == h[i]);
            assert(header[i] == h[i]);
        }
    }
}

/// Where nothing is listed, nothing is listed below any position.
proof fn lemma_none_listed(indices: Seq<usize>, n: nat)
    requires
        indices.len() == 0,
        n <= usize::MAX,
    ensures
        listed_below(indices, n) == 0,
    decreases n,
{
    lemma_listed_below(indices, n);
    if n > 0 {
        lemma_none_listed(indices, (n - 1) as nat);
    }
}

/// The length of a connection identifier is kept between eight and twenty, and brought to the
/// nearer of the two otherwise.
pub proof fn law_identifier_lengths_are_clamped(dcid_len: u8)
    ensures
        8 <= dcid_clamped(dcid_len) <= 20,
        8 <= dcid_len <= 20 ==> dcid_clamped(dcid_len) == dcid_len,
        dcid_len < 8 ==> dcid_clamped(dcid_len) == 8,
        dcid_len > 20 ==> dcid_clamped(dcid_len) == 20,
{
}

/// The known protocols consist of fixed bytes and of random identifiers: twelve bytes behind
/// the eight of a STUN request, as many behind the six of a QUIC packet as its length byte says,
/// and the first two of a DNS query, which has a one as the number of its questions; a TLS
/// record has nothing random. What is random is drawn in one request.
pub proof fn law_protocols_draw_their_identifiers(
    magic_cookie: bool,
    version: u32,
    dcid_len: u8,
    flags: u16,
    content_type: u8,
    tls_version: u16,
    log: DrawLog,
)
    ensures
        header_log(stun_fields(magic_cookie), log) == log.then_draw(Draw::Bytes(12)),
        header_log(quic_fields(version, dcid_len), log) == log.then_draw(
            Draw::Bytes(dcid_clamped(dcid_len) as nat),
        ),
        header_log(dns_fields(flags), log) == log.then_draw(Draw::Bytes(2)),
        header_log(tls_fields(content_type, tls_version), log) == log,
{
    reveal_with_fuel(header_log, 8);
}

/// A prefix that is hexadecimal text stands for its bytes, and any other for the bytes from
/// zero to three.
pub proof fn law_prefixes_are_decoded(bytes: Seq<u8>, text: Seq<char>)
    ensures
        prefix_bytes(hex_text(bytes)) == bytes,
        text.len() % 2 != 0 ==> prefix_bytes(text) == seq![0u8, 1, 2, 3],
        (exists|i: int|
            0 <= i < text.len() && !('0' <= #[trigger] text[i] <= '9' || 'a' <= text[i] <= 'f'
                || 'A' <= text[i] <= 'F')) ==> prefix_bytes(text) == seq![0u8, 1, 2, 3],
{
    law_hex_round_trip(bytes);
}

} // verus!
