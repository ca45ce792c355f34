//! Map fields held in a `BTreeMap`: each entry is written as a nested message
//! whose field 1 is the key and field 2 the value; entries come out in key
//! order.

use crate::buf::ReadBuf;
use crate::encoding::bytes::delimited_bytes;
use crate::encoding::codec::{
    entries_bytes, entry_body, lawful_order, lemma_entries_prefix, EntryFields, FieldCodec,
};
use crate::encoding::{
    encode_tag, is_suffix, lemma_suffix_refl, merge_loop, region_model, region_outcome, tag_len, valid_field_number,
    DecodeContext,
};
use crate::error::DecodeError;
use crate::varint::usize as varint_usize;
use crate::wire_type::WireType;
use std::collections::BTreeMap;
use vstd::prelude::*;
use vstd::std_specs::btree::spec_btree_map_iter;
use vstd::std_specs::iter::IteratorSpec;

verus! {

/// The entries of `m` in the order the map hands them out, which is the
/// order of the keys.
pub open spec fn btree_entries<K, V>(m: &BTreeMap<K, V>) -> Seq<(K, V)> {
    vstd::std_specs::btree::into_iter(spec_btree_map_iter(m))
}

/// Writes every entry; a key equal to the default and a value equal to
/// `val_default` are left out of their entry.
pub fn encode_with_default<KC: FieldCodec, VC: FieldCodec>(
    val_default: &VC::Value,
    number: u32,
    values: &BTreeMap<KC::Value, VC::Value>,
    buf: &mut Vec<u8>,
) where KC::Value: Ord
    requires
        valid_field_number(number),
        lawful_order::<KC::Value>(),
        entries_bytes::<KC, VC>(number as nat, btree_entries(values), *val_default).len()
            <= usize::MAX,
    ensures
        final(buf)@ == old(buf)@ + entries_bytes::<KC, VC>(
            number as nat,
            btree_entries(values),
            *val_default,
        ),
{
    broadcast use vstd::std_specs::btree::group_btree_axioms;
    let ghost entries = btree_entries(values);
    let ghost start = buf@;
    for (key, val) in it: values.iter()
        invariant
            valid_field_number(number),
            entries == btree_entries(values),
            it.seq().unref() == entries,
            buf@ == start + entries_bytes::<KC, VC>(number as nat, entries.take(it.index() as int), *val_default),
            entries_bytes::<KC, VC>(number as nat, entries, *val_default).len() <= usize::MAX,
            start == old(buf)@,
    {
        let ghost i = it.index() as int;
        assert(entries[i] == (*key, *val));
        assert(entries.take(i + 1).drop_last() =~= entries.take(i));
        proof {
            lemma_entries_prefix::<KC, VC>(number as nat, entries, *val_default, (i + 1) as nat);
        }
        let ghost body = entry_body::<KC, VC>(*key, *val, *val_default);
        assert(delimited_bytes(number as nat, body).len() <= usize::MAX);
        let skip_key = KC::is_default(key);
        let skip_val = VC::same(val, val_default);
        let key_len = if skip_key {
            0
        } else {
            KC::encoded_len(1, key)
        };
        let val_len = if skip_val {
            0
        } else {
            VC::encoded_len(2, val)
        };
        let len = key_len + val_len;
        encode_tag(number, WireType::LengthDelimited, buf);
        varint_usize::encode_varint(len, buf);
        if !skip_key {
            KC::encode(1, key, buf);
        }
        if !skip_val {
            VC::encode(2, val, buf);
        }
        assert(buf@ =~= start + entries_bytes::<KC, VC>(number as nat, entries.take(i + 1), *val_default));
    }
    assert(entries.take(entries.len() as int) =~= entries);
}

/// Writes every entry, leaving out keys and values equal to their defaults.
pub fn encode<KC: FieldCodec, VC: FieldCodec>(
    number: u32,
    values: &BTreeMap<KC::Value, VC::Value>,
    buf: &mut Vec<u8>,
) where KC::Value: Ord
    requires
        valid_field_number(number),
        lawful_order::<KC::Value>(),
        forall|d: VC::Value|
            VC::is_default_spec(d) ==> entries_bytes::<KC, VC>(number as nat, btree_entries(values), d).len()
                <= usize::MAX,
    ensures
        exists|d: VC::Value|
            VC::is_default_spec(d) && final(buf)@ == old(buf)@ + entries_bytes::<KC, VC>(
                number as nat,
                btree_entries(values),
                d,
            ),
{
    let d = VC::default_value();
    encode_with_default::<KC, VC>(&d, number, values, buf);
}

/// Length of the encoding of every entry, with `val_default` as the value
/// default.
pub fn encoded_len_with_default<KC: FieldCodec, VC: FieldCodec>(
    val_default: &VC::Value,
    number: u32,
    values: &BTreeMap<KC::Value, VC::Value>,
) -> (n: usize) where KC::Value: Ord
    requires
        valid_field_number(number),
        lawful_order::<KC::Value>(),
        entries_bytes::<KC, VC>(number as nat, btree_entries(values), *val_default).len()
            <= usize::MAX,
    ensures
        n == entries_bytes::<KC, VC>(number as nat, btree_entries(values), *val_default).len(),
{
    broadcast use vstd::std_specs::btree::group_btree_axioms;
    let ghost entries = btree_entries(values);
    let mut total: usize = 0;
    for (key, val) in it: values.iter()
        invariant
            valid_field_number(number),
            entries == btree_entries(values),
            it.seq().unref() == entries,
            total == entries_bytes::<KC, VC>(number as nat, entries.take(it.index() as int), *val_default).len(),
            entries_bytes::<KC, VC>(number as nat, entries, *val_default).len() <= usize::MAX,
    {
        let ghost i = it.index() as int;
        assert(entries[i] == (*key, *val));
        assert(entries.take(i + 1).drop_last() =~= entries.take(i));
        proof {
            lemma_entries_prefix::<KC, VC>(number as nat, entries, *val_default, (i + 1) as nat);
        }
        let key_len = if KC::is_default(key) {
            0
        } else {
            KC::encoded_len(1, key)
        };
        let val_len = if VC::same(val, val_default) {
            0
        } else {
            VC::encoded_len(2, val)
        };
        let len = key_len + val_len;
        total = total + tag_len(number) + varint_usize::encoded_len_varint(len) + len;
    }
    assert(entries.take(entries.len() as int) =~= entries);
    total
}

/// Length of the encoding of every entry.
pub fn encoded_len<KC: FieldCodec, VC: FieldCodec>(number: u32, values: &BTreeMap<KC::Value, VC::Value>) -> (n:
    usize) where KC::Value: Ord
    requires
        valid_field_number(number),
        lawful_order::<KC::Value>(),
        forall|d: VC::Value|
            VC::is_default_spec(d) ==> entries_bytes::<KC, VC>(number as nat, btree_entries(values), d).len()
                <= usize::MAX,
    ensures
        exists|d: VC::Value|
            VC::is_default_spec(d) && n == entries_bytes::<KC, VC>(
                number as nat,
                btree_entries(values),
                d,
            ).len(),
{
    let d = VC::default_value();
    encoded_len_with_default::<KC, VC>(&d, number, values)
}

/// Reads one entry whose key has been read, and inserts it; a key or value
/// the entry leaves out is the default, `val_default` for the value.
pub fn merge_with_default<KC: FieldCodec, VC: FieldCodec>(
    val_default: VC::Value,
    values: &mut BTreeMap<KC::Value, VC::Value>,
    buf: &mut ReadBuf,
    ctx: DecodeContext,
) -> (r: Result<(), DecodeError>) where KC::Value: Ord
    requires
        lawful_order::<KC::Value>(),
    ensures
        is_suffix(final(buf)@, old(buf)@),
        ctx.depth() == 0 ==> r == Err::<(), DecodeError>(DecodeError::RecursionLimitReached)
            && final(buf)@ == old(buf)@ && final(values)@ == old(values)@,
        ctx.depth() > 0 ==> (r, final(buf)@) == region_outcome::<
            (KC::Value, VC::Value),
            EntryFields<KC, VC>,
        >(EntryFields::<KC, VC>::spec_new(), old(buf)@, (ctx.depth() - 1) as nat),
        r is Ok ==> exists|k: KC::Value, v: VC::Value| #![trigger old(values)@.insert(k, v)]
            final(values)@ == old(values)@.insert(k, v) && (KC::model(k), VC::model(v)) == region_model::<
                (KC::Value, VC::Value),
                EntryFields<KC, VC>,
            >(
                EntryFields::<KC, VC>::spec_new(),
                (KC::default_model(), VC::model(val_default)),
                old(buf)@,
                (ctx.depth() - 1) as nat,
            ),
        r is Err ==> final(values)@ == old(values)@,
{
    proof {
        lemma_suffix_refl(old(buf)@);
    }
    let mut entry = (KC::default_value(), val_default);
    ctx.limit_reached()?;
    merge_loop(&mut entry, buf, ctx.enter_recursion(), EntryFields::<KC, VC>::new())?;
    let (key, val) = entry;
    let ghost (k, v) = (key, val);
    values.insert(key, val);
    assert(values@ == old(values)@.insert(k, v));
    Ok(())
}

/// Reads one entry whose key has been read, and inserts it; a key or value
/// the entry leaves out is the default.
pub fn merge<KC: FieldCodec, VC: FieldCodec>(
    values: &mut BTreeMap<KC::Value, VC::Value>,
    buf: &mut ReadBuf,
    ctx: DecodeContext,
) -> (r: Result<(), DecodeError>) where KC::Value: Ord
    requires
        lawful_order::<KC::Value>(),
    ensures
        is_suffix(final(buf)@, old(buf)@),
        ctx.depth() == 0 ==> r == Err::<(), DecodeError>(DecodeError::RecursionLimitReached)
            && final(buf)@ == old(buf)@ && final(values)@ == old(values)@,
        ctx.depth() > 0 ==> (r, final(buf)@) == region_outcome::<
            (KC::Value, VC::Value),
            EntryFields<KC, VC>,
        >(EntryFields::<KC, VC>::spec_new(), old(buf)@, (ctx.depth() - 1) as nat),
        r is Ok ==> exists|k: KC::Value, v: VC::Value| #![trigger old(values)@.insert(k, v)]
            final(values)@ == old(values)@.insert(k, v) && (KC::model(k), VC::model(v)) == region_model::<
                (KC::Value, VC::Value),
                EntryFields<KC, VC>,
            >(
                EntryFields::<KC, VC>::spec_new(),
                (KC::default_model(), VC::default_model()),
                old(buf)@,
                (ctx.depth() - 1) as nat,
            ),
        r is Err ==> final(values)@ == old(values)@,
{
    let val_default = VC::default_value();
    merge_with_default::<KC, VC>(val_default, values, buf, ctx)
}

} // verus!
