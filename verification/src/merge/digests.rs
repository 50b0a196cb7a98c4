//! What digests and identifiers are taken over: bytes from which everything that went
//! into them can be told, so that no two different things have the same bytes.
use vstd::prelude::*;
use vstd::utf8::{encode_utf8, encode_utf8_decode_utf8};

use super::audit::{unit_head, values_from};
use super::database::{AtomicGroupView, FieldValue};
use super::error::Outcome;
use super::ids::{be64, framed, framed_texts};
use super::opened::OpenedPakView;
use super::providers::{canonical_digest, component_number, group_bytes_from};
use crate::pak::paths::PackageComponent;

verus! {

proof fn number_is_told(value: u64)
    ensures
        be64(value).len() == 8,
        value == be64(value)[7] + 0x100 * be64(value)[6] + 0x1_0000 * be64(value)[5] + 0x100_0000
            * be64(value)[4] + 0x1_0000_0000 * be64(value)[3] + 0x100_0000_0000 * be64(value)[2]
            + 0x1_0000_0000_0000 * be64(value)[1] + 0x100_0000_0000_0000 * be64(value)[0],
{
    reveal(be64);
    assert(value == value % 256 + 0x100 * (value / 0x100 % 256) + 0x1_0000 * (value / 0x1_0000
        % 256) + 0x100_0000 * (value / 0x100_0000 % 256) + 0x1_0000_0000 * (value / 0x1_0000_0000
        % 256) + 0x100_0000_0000 * (value / 0x100_0000_0000 % 256) + 0x1_0000_0000_0000 * (value
        / 0x1_0000_0000_0000 % 256) + 0x100_0000_0000_0000 * (value / 0x100_0000_0000_0000))
        by (bit_vector);
}

/// A number is told by its bytes.
pub proof fn numbers_are_told_by_their_bytes(left: u64, right: u64)
    ensures
        be64(left) == be64(right) ==> left == right,
{
    number_is_told(left);
    number_is_told(right);
}

proof fn equal_sums_have_equal_parts(a: Seq<u8>, x: Seq<u8>, b: Seq<u8>, y: Seq<u8>)
    requires
        a + x == b + y,
        a.len() == b.len(),
    ensures
        a == b,
        x == y,
{
    assert((a + x).take(a.len() as int) =~= a);
    assert((b + y).take(b.len() as int) =~= b);
    assert((a + x).skip(a.len() as int) =~= x);
    assert((b + y).skip(b.len() as int) =~= y);
}

/// A framed part and what stands behind it are told apart.
pub proof fn framed_parts_are_told_apart(a: Seq<u8>, x: Seq<u8>, b: Seq<u8>, y: Seq<u8>)
    requires
        a.len() <= u64::MAX,
        b.len() <= u64::MAX,
        framed(a) + x == framed(b) + y,
    ensures
        a == b,
        x == y,
{
    number_is_told(a.len() as u64);
    number_is_told(b.len() as u64);
    assert(framed(a) + x =~= be64(a.len() as u64) + (a + x));
    assert(framed(b) + y =~= be64(b.len() as u64) + (b + y));
    equal_sums_have_equal_parts(be64(a.len() as u64), a + x, be64(b.len() as u64), b + y);
    numbers_are_told_by_their_bytes(a.len() as u64, b.len() as u64);
    equal_sums_have_equal_parts(a, x, b, y);
}

proof fn texts_are_told_by_their_bytes(left: Seq<char>, right: Seq<char>)
    ensures
        encode_utf8(left) == encode_utf8(right) ==> left == right,
{
    encode_utf8_decode_utf8(left);
    encode_utf8_decode_utf8(right);
}

/// The texts have lengths that a frame can hold.
pub open spec fn can_be_framed(texts: Seq<Seq<char>>) -> bool {
    forall|i: int| 0 <= i < texts.len() ==> encode_utf8(#[trigger] texts[i]).len() <= u64::MAX
}

proof fn framed_texts_start_with_the_first(texts: Seq<Seq<char>>)
    requires
        texts.len() > 0,
    ensures
        framed_texts(texts) == framed(encode_utf8(texts[0])) + framed_texts(texts.skip(1)),
    decreases texts.len(),
{
    let rest = texts.skip(1);
    if texts.len() == 1 {
        assert(texts.drop_last() =~= Seq::<Seq<char>>::empty());
        assert(rest =~= Seq::<Seq<char>>::empty());
        assert(framed_texts(rest) == Seq::<u8>::empty());
        assert(texts.last() == texts[0]);
        assert(framed_texts(texts) =~= framed(encode_utf8(texts[0])) + framed_texts(rest));
    } else {
        let front = texts.drop_last();
        framed_texts_start_with_the_first(front);
        assert(front.skip(1) =~= rest.drop_last());
        assert(rest.last() == texts.last());
        let head = framed(encode_utf8(texts[0]));
        let tail = framed(encode_utf8(texts.last()));
        assert((head + framed_texts(rest.drop_last())) + tail =~= head + (framed_texts(
            rest.drop_last(),
        ) + tail));
    }
}

/// Lists of texts are told by their frames: an identifier is taken over bytes from which
/// every part that went into it can be told.
pub proof fn framed_texts_are_told_apart(left: Seq<Seq<char>>, right: Seq<Seq<char>>)
    requires
        can_be_framed(left),
        can_be_framed(right),
        framed_texts(left) == framed_texts(right),
    ensures
        left == right,
    decreases left.len(),
{
    if left.len() > 0 {
        framed_texts_start_with_the_first(left);
        number_is_told(encode_utf8(left[0]).len() as u64);
        assert(framed_texts(left).len() >= 8);
    }
    if right.len() > 0 {
        framed_texts_start_with_the_first(right);
        number_is_told(encode_utf8(right[0]).len() as u64);
        assert(framed_texts(right).len() >= 8);
    }
    if left.len() > 0 && right.len() > 0 {
        let more = left.skip(1);
        let rest = right.skip(1);
        framed_parts_are_told_apart(
            encode_utf8(left[0]),
            framed_texts(more),
            encode_utf8(right[0]),
            framed_texts(rest),
        );
        texts_are_told_by_their_bytes(left[0], right[0]);
        assert forall|i: int| 0 <= i < more.len() implies encode_utf8(#[trigger] more[i]).len()
            <= u64::MAX by {
            assert(more[i] == left[i + 1]);
        }
        assert forall|i: int| 0 <= i < rest.len() implies encode_utf8(#[trigger] rest[i]).len()
            <= u64::MAX by {
            assert(rest[i] == right[i + 1]);
        }
        framed_texts_are_told_apart(more, rest);
        assert(left =~= seq![left[0]] + more);
        assert(right =~= seq![right[0]] + rest);
    } else {
        assert(left =~= right);
    }
}

/// The values of a unit behind a position, as bytes.
spec fn value_bytes(
    unit: AtomicGroupView,
    values: Seq<std::result::Result<FieldValue, String>>,
    at: int,
) -> Seq<u8>
    decreases unit.fields.len() - at,
{
    if at >= unit.fields.len() {
        Seq::empty()
    } else {
        framed(encode_utf8(unit.fields[at])) + (framed(values[at]->Ok_0.raw@) + value_bytes(
            unit,
            values,
            at + 1,
        ))
    }
}

proof fn values_stand_behind(
    done: Seq<u8>,
    unit: AtomicGroupView,
    values: Seq<std::result::Result<FieldValue, String>>,
    at: int,
)
    ensures
        values_from(done, unit, values, at) matches Ok(bytes) ==> bytes == done + value_bytes(
            unit,
            values,
            at,
        ) && (forall|i: int|
            at <= i < unit.fields.len() ==> i < values.len() && (#[trigger] values[i]) is Ok),
    decreases unit.fields.len() - at,
{
    if at < unit.fields.len() && values_from(done, unit, values, at) is Ok {
        let name = framed(encode_utf8(unit.fields[at]));
        let raw = framed(values[at]->Ok_0.raw@);
        values_stand_behind(done + name + raw, unit, values, at + 1);
        assert(done + name + raw + value_bytes(unit, values, at + 1) =~= done + (name + (raw
            + value_bytes(unit, values, at + 1))));
    }
    if at >= unit.fields.len() {
        assert(done + value_bytes(unit, values, at) =~= done);
    }
}

/// The names and the values of a unit have lengths that a frame can hold.
pub open spec fn unit_can_be_framed(
    unit: AtomicGroupView,
    values: Seq<std::result::Result<FieldValue, String>>,
) -> bool {
    &&& encode_utf8(unit.id).len() <= u64::MAX
    &&& can_be_framed(unit.fields)
    &&& forall|i: int|
        0 <= i < values.len() ==> ((#[trigger] values[i]) matches Ok(value) ==> value.raw@.len()
            <= u64::MAX)
}

proof fn equal_value_bytes(
    left: AtomicGroupView,
    some: Seq<std::result::Result<FieldValue, String>>,
    right: AtomicGroupView,
    others: Seq<std::result::Result<FieldValue, String>>,
    at: int,
)
    requires
        0 <= at,
        unit_can_be_framed(left, some),
        unit_can_be_framed(right, others),
        forall|i: int|
            at <= i < left.fields.len() ==> i < some.len() && (#[trigger] some[i]) is Ok,
        forall|i: int|
            at <= i < right.fields.len() ==> i < others.len() && (#[trigger] others[i]) is Ok,
        at <= left.fields.len(),
        at <= right.fields.len(),
        value_bytes(left, some, at) == value_bytes(right, others, at),
    ensures
        left.fields.len() == right.fields.len(),
        forall|i: int|
            at <= i < left.fields.len() ==> #[trigger] left.fields[i] == right.fields[i]
                && some[i]->Ok_0.raw@ == others[i]->Ok_0.raw@,
    decreases left.fields.len() - at,
{
    if at < left.fields.len() {
        number_is_told(encode_utf8(left.fields[at]).len() as u64);
        assert(value_bytes(left, some, at).len() >= 8);
    }
    if at < right.fields.len() {
        number_is_told(encode_utf8(right.fields[at]).len() as u64);
        assert(value_bytes(right, others, at).len() >= 8);
    }
    if at < left.fields.len() && at < right.fields.len() {
        let mine = some[at]->Ok_0.raw@;
        let yours = others[at]->Ok_0.raw@;
        assert(some[at] is Ok && others[at] is Ok);
        framed_parts_are_told_apart(
            encode_utf8(left.fields[at]),
            framed(mine) + value_bytes(left, some, at + 1),
            encode_utf8(right.fields[at]),
            framed(yours) + value_bytes(right, others, at + 1),
        );
        texts_are_told_by_their_bytes(left.fields[at], right.fields[at]);
        framed_parts_are_told_apart(
            mine,
            value_bytes(left, some, at + 1),
            yours,
            value_bytes(right, others, at + 1),
        );
        equal_value_bytes(left, some, right, others, at + 1);
    }
}

proof fn equal_heads(left: AtomicGroupView, x: Seq<u8>, right: AtomicGroupView, y: Seq<u8>)
    requires
        encode_utf8(left.id).len() <= u64::MAX,
        encode_utf8(right.id).len() <= u64::MAX,
        unit_head(left) is Ok,
        unit_head(right) is Ok,
        unit_head(left)->Ok_0 + x == unit_head(right)->Ok_0 + y,
    ensures
        left.id == right.id,
        left.array_index == right.array_index,
        left.array_index is Some ==> left.expected_array_len == right.expected_array_len,
        x == y,
{
    let mark = encode_utf8("PAK-MERGER-RAW-PRESERVATION-ATOMIC-UNIT-V1"@);
    let mine = unit_tail(left);
    let yours = unit_tail(right);
    let a = encode_utf8(left.id);
    let b = encode_utf8(right.id);
    assert(unit_head(left)->Ok_0 + x =~= mark + (framed(a) + (mine + x)));
    assert(unit_head(right)->Ok_0 + y =~= mark + (framed(b) + (yours + y)));
    equal_sums_have_equal_parts(mark, framed(a) + (mine + x), mark, framed(b) + (yours + y));
    framed_parts_are_told_apart(a, mine + x, b, yours + y);
    texts_are_told_by_their_bytes(left.id, right.id);
    equal_tails(left, x, right, y);
}

/// The end of a unit's head: whether it has a place in a list, and which.
spec fn unit_tail(unit: AtomicGroupView) -> Seq<u8> {
    match unit.array_index {
        Some(index) => seq![1u8] + (be64(index as u64) + be64(unit.expected_array_len->0 as u64)),
        None => seq![0u8],
    }
}

proof fn equal_tails(left: AtomicGroupView, x: Seq<u8>, right: AtomicGroupView, y: Seq<u8>)
    requires
        unit_head(left) is Ok,
        unit_head(right) is Ok,
        unit_tail(left) + x == unit_tail(right) + y,
    ensures
        left.array_index == right.array_index,
        left.array_index is Some ==> left.expected_array_len == right.expected_array_len,
        x == y,
{
    let mine = unit_tail(left) + x;
    let yours = unit_tail(right) + y;
    assert(mine[0] == unit_tail(left)[0]);
    assert(yours[0] == unit_tail(right)[0]);
    if let (Some(i), Some(j)) = (left.array_index, right.array_index) {
        let k = left.expected_array_len->0;
        let l = right.expected_array_len->0;
        number_is_told(i as u64);
        number_is_told(j as u64);
        number_is_told(k as u64);
        number_is_told(l as u64);
        assert(mine =~= seq![1u8] + (be64(i as u64) + (be64(k as u64) + x)));
        assert(yours =~= seq![1u8] + (be64(j as u64) + (be64(l as u64) + y)));
        equal_sums_have_equal_parts(
            seq![1u8],
            be64(i as u64) + (be64(k as u64) + x),
            seq![1u8],
            be64(j as u64) + (be64(l as u64) + y),
        );
        equal_sums_have_equal_parts(
            be64(i as u64),
            be64(k as u64) + x,
            be64(j as u64),
            be64(l as u64) + y,
        );
        equal_sums_have_equal_parts(be64(k as u64), x, be64(l as u64), y);
        numbers_are_told_by_their_bytes(i as u64, j as u64);
        numbers_are_told_by_their_bytes(k as u64, l as u64);
    } else {
        equal_sums_have_equal_parts(unit_tail(left), x, unit_tail(right), y);
    }
}

/// The digest of a unit's values is taken over bytes that tell the unit, its place in a
/// list, its fields, and of every field the value as it is stored.
pub proof fn units_are_told_by_their_bytes(
    left: AtomicGroupView,
    some: Seq<std::result::Result<FieldValue, String>>,
    right: AtomicGroupView,
    others: Seq<std::result::Result<FieldValue, String>>,
    bytes: Seq<u8>,
)
    requires
        unit_can_be_framed(left, some),
        unit_can_be_framed(right, others),
        unit_head(left) matches Ok(head) && values_from(head, left, some, 0) == Outcome::<
            Seq<u8>,
        >::Ok(bytes),
        unit_head(right) matches Ok(head) && values_from(head, right, others, 0) == Outcome::<
            Seq<u8>,
        >::Ok(bytes),
    ensures
        left.id == right.id,
        left.array_index == right.array_index,
        left.array_index is Some ==> left.expected_array_len == right.expected_array_len,
        left.fields == right.fields,
        forall|i: int|
            0 <= i < left.fields.len() ==> (#[trigger] some[i])->Ok_0.raw@ == others[i]->Ok_0.raw@,
{
    let mine = unit_head(left)->Ok_0;
    let yours = unit_head(right)->Ok_0;
    values_stand_behind(mine, left, some, 0);
    values_stand_behind(yours, right, others, 0);
    equal_heads(left, value_bytes(left, some, 0), right, value_bytes(right, others, 0));
    equal_value_bytes(left, some, right, others, 0);
    assert(left.fields =~= right.fields);
    assert forall|i: int| 0 <= i < left.fields.len() implies (#[trigger] some[i])->Ok_0.raw@
        == others[i]->Ok_0.raw@ by {
        assert(left.fields[i] == right.fields[i]);
    }
}

/// The components of a package as bytes.
spec fn component_bytes(input: OpenedPakView, parts: Seq<(PackageComponent, Seq<char>)>) -> Seq<u8>
    decreases parts.len(),
{
    if parts.len() == 0 {
        Seq::empty()
    } else {
        seq![component_number(parts[0].0)] + (framed(encode_utf8(parts[0].1)) + (framed(
            encode_utf8(canonical_digest(input, parts[0].1)->Ok_0),
        ) + component_bytes(input, parts.skip(1))))
    }
}

proof fn components_stand_behind(
    done: Seq<u8>,
    input: OpenedPakView,
    parts: Seq<(PackageComponent, Seq<char>)>,
)
    ensures
        group_bytes_from(done, input, parts) matches Ok(bytes) ==> bytes == done + component_bytes(
            input,
            parts,
        ),
    decreases parts.len(),
{
    if parts.len() == 0 {
        assert(done + component_bytes(input, parts) =~= done);
    } else if let Ok(digest) = canonical_digest(input, parts[0].1) {
        let number = component_number(parts[0].0);
        let name = framed(encode_utf8(parts[0].1));
        let mark = framed(encode_utf8(digest));
        let more = done.push(number) + name + mark;
        components_stand_behind(more, input, parts.skip(1));
        assert(more + component_bytes(input, parts.skip(1)) =~= done + component_bytes(
            input,
            parts,
        ));
    }
}

/// The paths and the digests of a package have lengths that a frame can hold.
pub open spec fn package_can_be_framed(
    input: OpenedPakView,
    parts: Seq<(PackageComponent, Seq<char>)>,
) -> bool {
    forall|i: int|
        0 <= i < parts.len() ==> encode_utf8((#[trigger] parts[i]).1).len() <= u64::MAX && (
        canonical_digest(input, parts[i].1) matches Ok(digest) ==> encode_utf8(digest).len()
            <= u64::MAX)
}

proof fn equal_component_bytes(
    one: OpenedPakView,
    left: Seq<(PackageComponent, Seq<char>)>,
    other: OpenedPakView,
    right: Seq<(PackageComponent, Seq<char>)>,
    done: Seq<u8>,
)
    requires
        package_can_be_framed(one, left),
        package_can_be_framed(other, right),
        group_bytes_from(done, one, left) is Ok,
        group_bytes_from(done, other, right) is Ok,
        component_bytes(one, left) == component_bytes(other, right),
    ensures
        left == right,
        forall|i: int|
            0 <= i < left.len() ==> canonical_digest(one, (#[trigger] left[i]).1)
                == canonical_digest(other, left[i].1),
    decreases left.len(),
{
    if left.len() > 0 && right.len() > 0 {
        let a = encode_utf8(left[0].1);
        let b = encode_utf8(right[0].1);
        let c = encode_utf8(canonical_digest(one, left[0].1)->Ok_0);
        let d = encode_utf8(canonical_digest(other, right[0].1)->Ok_0);
        let more = left.skip(1);
        let rest = right.skip(1);
        let x = component_bytes(one, more);
        let y = component_bytes(other, rest);
        let m = component_number(left[0].0);
        let n = component_number(right[0].0);
        assert(canonical_digest(one, left[0].1) is Ok && canonical_digest(other, right[0].1) is Ok);
        equal_sums_have_equal_parts(
            seq![m],
            framed(a) + (framed(c) + x),
            seq![n],
            framed(b) + (framed(d) + y),
        );
        assert(seq![m][0] == seq![n][0]);
        framed_parts_are_told_apart(a, framed(c) + x, b, framed(d) + y);
        framed_parts_are_told_apart(c, x, d, y);
        texts_are_told_by_their_bytes(left[0].1, right[0].1);
        texts_are_told_by_their_bytes(
            canonical_digest(one, left[0].1)->Ok_0,
            canonical_digest(other, right[0].1)->Ok_0,
        );
        assert forall|i: int| 0 <= i < more.len() implies encode_utf8((#[trigger] more[i]).1).len()
            <= u64::MAX && (canonical_digest(one, more[i].1) matches Ok(digest) ==> encode_utf8(
            digest,
        ).len() <= u64::MAX) by {
            assert(more[i] == left[i + 1]);
        }
        assert forall|i: int| 0 <= i < rest.len() implies encode_utf8((#[trigger] rest[i]).1).len()
            <= u64::MAX && (canonical_digest(other, rest[i].1) matches Ok(digest) ==> encode_utf8(
            digest,
        ).len() <= u64::MAX) by {
            assert(rest[i] == right[i + 1]);
        }
        let next = done.push(m) + framed(a) + framed(c);
        equal_component_bytes(one, more, other, rest, next);
        assert(left =~= seq![left[0]] + more);
        assert(right =~= seq![right[0]] + rest);
        assert forall|i: int| 0 <= i < left.len() implies canonical_digest(
            one,
            (#[trigger] left[i]).1,
        ) == canonical_digest(other, left[i].1) by {
            if i > 0 {
                assert(more[i - 1] == left[i]);
            }
        }
    } else {
        assert(left =~= right);
    }
}

/// The digest of a package is taken over bytes that tell its components, their paths and
/// the digests of their contents.
pub proof fn packages_are_told_by_their_bytes(
    one: OpenedPakView,
    left: Seq<(PackageComponent, Seq<char>)>,
    other: OpenedPakView,
    right: Seq<(PackageComponent, Seq<char>)>,
    done: Seq<u8>,
    bytes: Seq<u8>,
)
    requires
        package_can_be_framed(one, left),
        package_can_be_framed(other, right),
        group_bytes_from(done, one, left) == Outcome::<Seq<u8>>::Ok(bytes),
        group_bytes_from(done, other, right) == Outcome::<Seq<u8>>::Ok(bytes),
    ensures
        left == right,
        forall|i: int|
            0 <= i < left.len() ==> canonical_digest(one, (#[trigger] left[i]).1)
                == canonical_digest(other, left[i].1),
{
    components_stand_behind(done, one, left);
    components_stand_behind(done, other, right);
    equal_sums_have_equal_parts(
        done,
        component_bytes(one, left),
        done,
        component_bytes(other, right),
    );
    equal_component_bytes(one, left, other, right, done);
}

} // verus!
