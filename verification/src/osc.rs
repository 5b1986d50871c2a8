//! OSC framing: a message is the address, the type tags, and the arguments.
//!
//! The address and the tag string are texts: their bytes, then one to four zero bytes up to
//! the next multiple of four. The tag string begins with a comma. Numbers are four bytes,
//! the most significant first. A value is framed as follows.
//!
//! | value                   | tags            | data                                   |
//! |-------------------------|-----------------|----------------------------------------|
//! | impulse                 | `I`             | none                                   |
//! | integer                 | `i`             | two's complement                       |
//! | float                   | `f`             | bit pattern                            |
//! | boolean                 | `T` or `F`      | none                                   |
//! | character               | `c`             | its code                               |
//! | string                  | `s`             | a text, in UTF-8                       |
//! | byte buffer             | `b`             | length, bytes, zeros up to four        |
//! | vector of 2, 3, 4       | `f` for each    | the components                         |
//! | list of the above atoms | `[`, tags, `]`  | the data of the elements               |
//!
//! A message with several arguments is read as the list of them, one without any as an
//! impulse.

pub mod roundtrip;

use crate::error::Error;
use crate::float::Float;
use crate::text::text_of;
use crate::value::{lemma_list_view, models, Value, ValueModel};
use vstd::prelude::*;
use vstd::string::StrSliceExecFns;
use vstd::utf8::{decode_utf8, encode_utf8, valid_utf8};

verus! {

/// `n` zero bytes.
pub open spec fn zeros(n: int) -> Seq<u8> {
    Seq::new(if n > 0 { n as nat } else { 0nat }, |i: int| 0u8)
}

/// The bytes of a text with its padding: one to four zero bytes up to a multiple of four.
pub open spec fn padded(b: Seq<u8>) -> Seq<u8> {
    b + zeros(4 - b.len() % 4)
}

/// The four bytes of a number below `2^32`, the most significant first.
pub open spec fn word(x: int) -> Seq<u8> {
    seq![(x / 0x100_0000 % 0x100) as u8, (x / 0x1_0000 % 0x100) as u8, (x / 0x100 % 0x100) as u8, (x % 0x100) as u8]
}

/// The number that the four bytes at `i` spell, the most significant first.
pub open spec fn unword(b: Seq<u8>, i: int) -> int {
    b[i] as int * 0x100_0000 + b[i + 1] as int * 0x1_0000 + b[i + 2] as int * 0x100 + b[i + 3] as int
}

/// The two's complement of a 32-bit integer, as a number below `2^32`.
pub open spec fn twos(i: int) -> int {
    if i < 0 {
        i + 0x1_0000_0000
    } else {
        i
    }
}

/// The integer that a number below `2^32` is the two's complement of.
pub open spec fn untwos(w: int) -> int {
    if w >= 0x8000_0000 {
        w - 0x1_0000_0000
    } else {
        w
    }
}

/// The bytes hold no zero.
pub open spec fn clean(b: Seq<u8>) -> bool {
    forall|i: int| 0 <= i < b.len() ==> #[trigger] b[i] != 0
}

/// A value that is framed as one argument: neither a vector nor a list.
pub open spec fn is_atom(v: ValueModel) -> bool {
    !(v is List) && !(v is Vec2f) && !(v is Vec3f) && !(v is Vec4f)
}

/// An atom that can be framed: an integer of 32 bits, a string without a zero byte, a byte
/// buffer whose length fits four bytes, or any other atom.
pub open spec fn atom_ok(v: ValueModel) -> bool {
    match v {
        ValueModel::Int(i) => -0x8000_0000 <= i < 0x8000_0000,
        ValueModel::String(s) => clean(encode_utf8(s)),
        ValueModel::Bytes(b) => b.len() < 0x1_0000_0000,
        _ => is_atom(v),
    }
}

/// The type tag of an atom.
pub open spec fn atom_tag(v: ValueModel) -> u8 {
    match v {
        ValueModel::Int(_) => 0x69,
        ValueModel::Float(_) => 0x66,
        ValueModel::Bool(b) => if b { 0x54 } else { 0x46 },
        ValueModel::Char(_) => 0x63,
        ValueModel::String(_) => 0x73,
        ValueModel::Bytes(_) => 0x62,
        _ => 0x49,
    }
}

/// The argument data of an atom.
pub open spec fn atom_data(v: ValueModel) -> Seq<u8> {
    match v {
        ValueModel::Int(i) => word(twos(i)),
        ValueModel::Float(f) => word(f.bits as int),
        ValueModel::Char(c) => word(c as int),
        ValueModel::String(s) => padded(encode_utf8(s)),
        ValueModel::Bytes(b) => word(b.len() as int) + b + zeros((4 - b.len() % 4) % 4),
        _ => Seq::empty(),
    }
}

/// The type tags of a run of atoms.
pub open spec fn atoms_tags(l: Seq<ValueModel>) -> Seq<u8> {
    Seq::new(l.len(), |i: int| atom_tag(l[i]))
}

/// The argument data of a run of atoms, one behind the other.
pub open spec fn atoms_data(l: Seq<ValueModel>) -> Seq<u8>
    decreases l.len(),
{
    if l.len() == 0 {
        Seq::empty()
    } else {
        atom_data(l[0]) + atoms_data(l.drop_first())
    }
}

/// The floats as atoms.
pub open spec fn float_atoms(f: Seq<Float>) -> Seq<ValueModel> {
    Seq::new(f.len(), |i: int| ValueModel::Float(f[i]))
}

/// The arguments that a value is framed as: the components of a vector, the one list, or
/// the one atom.
pub open spec fn arguments(v: ValueModel) -> Seq<ValueModel> {
    match v {
        ValueModel::Vec2f(a, b) => float_atoms(seq![a, b]),
        ValueModel::Vec3f(a, b, c) => float_atoms(seq![a, b, c]),
        ValueModel::Vec4f(a, b, c, d) => float_atoms(seq![a, b, c, d]),
        _ => seq![v],
    }
}

/// The type tags of a value.
pub open spec fn tags_of(v: ValueModel) -> Seq<u8> {
    match v {
        ValueModel::List(l) => seq![0x5bu8] + atoms_tags(l) + seq![0x5du8],
        _ => atoms_tags(arguments(v)),
    }
}

/// The argument data of a value.
pub open spec fn data_of(v: ValueModel) -> Seq<u8> {
    match v {
        ValueModel::List(l) => atoms_data(l),
        _ => atoms_data(arguments(v)),
    }
}

/// Every one of the values is an atom that can be framed.
pub open spec fn atoms_ok(l: Seq<ValueModel>) -> bool {
    forall|i: int| 0 <= i < l.len() ==> is_atom(#[trigger] l[i]) && atom_ok(l[i])
}

/// A value that can be framed: an atom that can, a vector, or a list of atoms that can.
pub open spec fn encodable(v: ValueModel) -> bool {
    match v {
        ValueModel::List(l) => atoms_ok(l),
        ValueModel::Vec2f(_, _) => true,
        ValueModel::Vec3f(_, _, _) => true,
        ValueModel::Vec4f(_, _, _, _) => true,
        _ => atom_ok(v),
    }
}

/// An address that can be framed: its bytes begin with a slash and hold no zero.
pub open spec fn address_ok(a: Seq<char>) -> bool {
    let b = encode_utf8(a);
    b.len() > 0 && b[0] == 0x2f && clean(b)
}

/// The message that carries `v` to address `a`.
pub open spec fn encoded(a: Seq<char>, v: ValueModel) -> Seq<u8> {
    padded(encode_utf8(a)) + padded(seq![0x2cu8] + tags_of(v)) + data_of(v)
}

/// The value that a message with the given arguments carries.
pub open spec fn value_of(args: Seq<ValueModel>) -> ValueModel {
    if args.len() == 0 {
        ValueModel::Impulse
    } else if args.len() == 1 {
        args[0]
    } else {
        ValueModel::List(args)
    }
}

/// The first position at or after `i` that holds `c`.
pub open spec fn first_at(b: Seq<u8>, i: int, c: u8) -> Option<int>
    decreases b.len() - i,
{
    if i < 0 || i >= b.len() {
        None
    } else if b[i] == c {
        Some(i)
    } else {
        first_at(b, i + 1, c)
    }
}

/// The bytes from `from` up to `to` are zero.
pub open spec fn all_zero(b: Seq<u8>, from: int, to: int) -> bool {
    forall|x: int| from <= x < to ==> #[trigger] b[x] == 0
}

/// The text that begins at `i`, and the position behind its padding.
pub open spec fn read_text(b: Seq<u8>, i: int) -> Option<(Seq<u8>, int)> {
    match first_at(b, i, 0) {
        Some(k) => {
            let next = k + (4 - (k - i) % 4);
            if i <= k && next <= b.len() && all_zero(b, k, next) {
                Some((b.subrange(i, k), next))
            } else {
                None
            }
        },
        None => None,
    }
}

/// The atom with type tag `tag` whose data begins at `d`, and the position behind it.
pub open spec fn read_atom(tag: u8, b: Seq<u8>, d: int) -> Option<(ValueModel, int)> {
    if d < 0 || d > b.len() {
        None
    } else if tag == 0x69 {
        if d + 4 <= b.len() {
            Some((ValueModel::Int(untwos(unword(b, d))), d + 4))
        } else {
            None
        }
    } else if tag == 0x66 {
        if d + 4 <= b.len() {
            Some((ValueModel::Float(Float { bits: unword(b, d) as u32 }), d + 4))
        } else {
            None
        }
    } else if tag == 0x63 {
        if d + 4 <= b.len() && unword(b, d) < 0x100 {
            Some((ValueModel::Char(unword(b, d) as u8), d + 4))
        } else {
            None
        }
    } else if tag == 0x54 {
        Some((ValueModel::Bool(true), d))
    } else if tag == 0x46 {
        Some((ValueModel::Bool(false), d))
    } else if tag == 0x49 {
        Some((ValueModel::Impulse, d))
    } else if tag == 0x73 {
        match read_text(b, d) {
            Some((text, next)) => if valid_utf8(text) {
                Some((ValueModel::String(decode_utf8(text)), next))
            } else {
                None
            },
            None => None,
        }
    } else if tag == 0x62 {
        if d + 4 <= b.len() {
            let n = unword(b, d);
            let next = d + 4 + n + (4 - n % 4) % 4;
            if next <= b.len() && all_zero(b, d + 4 + n, next) {
                Some((ValueModel::Bytes(b.subrange(d + 4, d + 4 + n)), next))
            } else {
                None
            }
        } else {
            None
        }
    } else {
        None
    }
}

/// The atoms with the tags at `t` up to `k`, their data beginning at `d`, and the position
/// behind the data.
pub open spec fn read_atoms(tags: Seq<u8>, t: int, k: int, b: Seq<u8>, d: int) -> Option<(Seq<ValueModel>, int)>
    decreases k - t,
{
    if t >= k || t < 0 || k > tags.len() {
        Some((Seq::empty(), d))
    } else {
        match read_atom(tags[t], b, d) {
            Some((v, d1)) => match read_atoms(tags, t + 1, k, b, d1) {
                Some((rest, d2)) => Some((seq![v] + rest, d2)),
                None => None,
            },
            None => None,
        }
    }
}

/// The arguments with the tags from `t` on, their data beginning at `d`, and the position
/// behind the data. Tags in brackets make one argument, a list.
pub open spec fn read_arguments(tags: Seq<u8>, t: int, b: Seq<u8>, d: int) -> Option<(Seq<ValueModel>, int)>
    decreases tags.len() - t,
{
    if t < 0 || t >= tags.len() {
        Some((Seq::empty(), d))
    } else if tags[t] == 0x5b {
        match first_at(tags, t + 1, 0x5d) {
            Some(k) => if t < k < tags.len() {
                match read_atoms(tags, t + 1, k, b, d) {
                    Some((l, d1)) => match read_arguments(tags, k + 1, b, d1) {
                        Some((rest, d2)) => Some((seq![ValueModel::List(l)] + rest, d2)),
                        None => None,
                    },
                    None => None,
                }
            } else {
                None
            },
            None => None,
        }
    } else {
        match read_atom(tags[t], b, d) {
            Some((v, d1)) => match read_arguments(tags, t + 1, b, d1) {
                Some((rest, d2)) => Some((seq![v] + rest, d2)),
                None => None,
            },
            None => None,
        }
    }
}

/// The address and the value that a message carries, or `None` where the bytes are no
/// message: the address must be a text in UTF-8 that begins with a slash, the tag string a
/// text that begins with a comma, and the arguments must take up all the rest.
pub open spec fn decoded(b: Seq<u8>) -> Option<(Seq<char>, ValueModel)> {
    match read_text(b, 0) {
        Some((a, t0)) => if a.len() > 0 && a[0] == 0x2f && valid_utf8(a) {
            match read_text(b, t0) {
                Some((tags, d0)) => if tags.len() > 0 && tags[0] == 0x2c {
                    match read_arguments(tags, 1, b, d0) {
                        Some((args, d)) => if d == b.len() {
                            Some((decode_utf8(a), value_of(args)))
                        } else {
                            None
                        },
                        None => None,
                    }
                } else {
                    None
                },
                None => None,
            }
        } else {
            None
        },
        None => None,
    }
}

/// Whether the bytes hold no zero.
fn is_clean(b: &Vec<u8>) -> (r: bool)
    ensures
        r == clean(b@),
{
    let mut i: usize = 0;
    while i < b.len()
        invariant
            i <= b.len(),
            forall|x: int| 0 <= x < i ==> #[trigger] b[x] != 0,
        decreases b.len() - i,
    {
        if b[i] == 0 {
            return false;
        }
        i += 1;
    }
    true
}

/// Appends `n` zero bytes.
fn push_zeros(out: &mut Vec<u8>, n: usize)
    ensures
        final(out)@ == old(out)@ + zeros(n as int),
{
    let mut i: usize = 0;
    assert(old(out)@ + zeros(0) =~= old(out)@);
    while i < n
        invariant
            i <= n,
            out@ == old(out)@ + zeros(i as int),
        decreases n - i,
    {
        out.push(0);
        assert(out@ =~= old(out)@ + zeros(i + 1));
        i += 1;
    }
}

/// Appends the bytes.
fn push_all(out: &mut Vec<u8>, b: &Vec<u8>)
    ensures
        final(out)@ == old(out)@ + b@,
{
    let mut i: usize = 0;
    assert(old(out)@ + b@.take(0) =~= old(out)@);
    while i < b.len()
        invariant
            i <= b.len(),
            out@ == old(out)@ + b@.take(i as int),
        decreases b.len() - i,
    {
        out.push(b[i]);
        assert(out@ =~= old(out)@ + b@.take(i + 1));
        i += 1;
    }
    assert(b@.take(b.len() as int) =~= b@);
}

/// Appends a text with its padding.
fn push_padded(out: &mut Vec<u8>, b: &Vec<u8>)
    ensures
        final(out)@ == old(out)@ + padded(b@),
{
    push_all(out, b);
    push_zeros(out, 4 - b.len() % 4);
    assert(out@ =~= old(out)@ + padded(b@));
}

/// Appends the four bytes of a number.
fn push_word(out: &mut Vec<u8>, x: u32)
    ensures
        final(out)@ == old(out)@ + word(x as int),
{
    out.push((x / 0x100_0000 % 0x100) as u8);
    out.push((x / 0x1_0000 % 0x100) as u8);
    out.push((x / 0x100 % 0x100) as u8);
    out.push((x % 0x100) as u8);
    assert(out@ =~= old(out)@ + word(x as int));
}

/// Appends the tag and the data of an atom that can be framed, and tells whether the value
/// was one. Where it was not, nothing of use is appended.
fn push_atom(v: &Value, tags: &mut Vec<u8>, data: &mut Vec<u8>) -> (r: bool)
    ensures
        r == (is_atom(v@) && atom_ok(v@)),
        r ==> final(tags)@ == old(tags)@.push(atom_tag(v@)) && final(data)@ == old(data)@ + atom_data(v@),
{
    match v {
        Value::Impulse => {
            tags.push(0x49);
            assert(data@ =~= old(data)@ + atom_data(v@));
            true
        },
        Value::Int(i) => {
            tags.push(0x69);
            let w: u32 = if *i < 0 {
                (*i as i64 + 0x1_0000_0000) as u32
            } else {
                *i as u32
            };
            push_word(data, w);
            true
        },
        Value::Float(f) => {
            tags.push(0x66);
            push_word(data, f.to_bits());
            true
        },
        Value::Bool(b) => {
            tags.push(if *b { 0x54 } else { 0x46 });
            assert(data@ =~= old(data)@ + atom_data(v@));
            true
        },
        Value::Char(c) => {
            tags.push(0x63);
            push_word(data, *c as u32);
            true
        },
        Value::String(s) => {
            let bytes = s.as_str().as_bytes_vec();
            if !is_clean(&bytes) {
                return false;
            }
            tags.push(0x73);
            push_padded(data, &bytes);
            true
        },
        Value::Bytes(b) => {
            if b.len() > 0xffff_ffff {
                return false;
            }
            tags.push(0x62);
            push_word(data, b.len() as u32);
            push_all(data, b);
            push_zeros(data, (4 - b.len() % 4) % 4);
            assert(data@ =~= old(data)@ + atom_data(v@));
            true
        },
        _ => false,
    }
}

/// Appends the tag and the data of a float.
fn push_float(f: Float, tags: &mut Vec<u8>, data: &mut Vec<u8>)
    ensures
        final(tags)@ == old(tags)@.push(0x66u8),
        final(data)@ == old(data)@ + word(f.bits as int),
{
    tags.push(0x66);
    push_word(data, f.to_bits());
}

/// The data of a run of atoms is the data of all but the last, then that of the last.
pub proof fn lemma_atoms_data_push(l: Seq<ValueModel>, v: ValueModel)
    ensures
        atoms_data(l.push(v)) == atoms_data(l) + atom_data(v),
    decreases l.len(),
{
    let all = l.push(v);
    if l.len() == 0 {
        assert(all.drop_first() =~= Seq::<ValueModel>::empty());
        assert(atoms_data(all.drop_first()) =~= Seq::<u8>::empty());
        assert(atoms_data(l) =~= Seq::<u8>::empty());
        assert(all[0] == v);
        assert(atoms_data(all) == atom_data(v) + atoms_data(all.drop_first()));
        assert(atoms_data(all) =~= atom_data(v));
        assert(atoms_data(l) + atom_data(v) =~= atom_data(v));
    } else {
        lemma_atoms_data_push(l.drop_first(), v);
        assert(all.drop_first() =~= l.drop_first().push(v));
        assert(atoms_data(all) =~= atoms_data(l) + atom_data(v));
    }
}

/// Appends the tags and the data of the atoms of a list, and tells whether all of them
/// could be framed.
fn push_atoms(l: &Vec<Value>, tags: &mut Vec<u8>, data: &mut Vec<u8>) -> (r: bool)
    ensures
        r == atoms_ok(models(l@)),
        r ==> final(tags)@ == old(tags)@ + atoms_tags(models(l@)) && final(data)@ == old(data)@ + atoms_data(
            models(l@),
        ),
{
    let ghost all = models(l@);
    let mut i: usize = 0;
    assert(all.take(0) =~= Seq::<ValueModel>::empty());
    assert(old(tags)@ + atoms_tags(all.take(0)) =~= old(tags)@);
    assert(old(data)@ + atoms_data(all.take(0)) =~= old(data)@);
    while i < l.len()
        invariant
            i <= l.len(),
            all == models(l@),
            atoms_ok(all.take(i as int)),
            tags@ == old(tags)@ + atoms_tags(all.take(i as int)),
            data@ == old(data)@ + atoms_data(all.take(i as int)),
        decreases l.len() - i,
    {
        let ghost before = all.take(i as int);
        let ok = push_atom(&l[i], tags, data);
        if !ok {
            assert(all[i as int] == l[i as int]@);
            return false;
        }
        proof {
            let v = l[i as int]@;
            assert(all.take(i + 1) =~= before.push(v));
            lemma_atoms_data_push(before, v);
            assert(atoms_tags(before.push(v)) =~= atoms_tags(before).push(atom_tag(v)));
            assert(tags@ =~= old(tags)@ + atoms_tags(before.push(v)));
            assert(data@ =~= old(data)@ + atoms_data(before.push(v)));
            assert forall|x: int| 0 <= x < before.push(v).len() implies is_atom(#[trigger] before.push(v)[x])
                && atom_ok(before.push(v)[x]) by {
                if x < before.len() {
                    assert(before.push(v)[x] == before[x]);
                }
            }
        }
        i += 1;
    }
    assert(all.take(l.len() as int) =~= all);
    true
}

/// Appends the tags and the data of a value, and tells whether it could be framed.
fn push_value(value: &Value, tags: &mut Vec<u8>, data: &mut Vec<u8>) -> (r: bool)
    ensures
        r == encodable(value@),
        r ==> final(tags)@ == old(tags)@ + tags_of(value@) && final(data)@ == old(data)@ + data_of(value@),
{
    match value {
        Value::Vec2f(x, y) => {
            push_float(*x, tags, data);
            push_float(*y, tags, data);
            proof {
                lemma_vector_frame(seq![*x, *y]);
                assert(tags@ =~= old(tags)@ + tags_of(value@));
                assert(data@ =~= old(data)@ + data_of(value@));
            }
            true
        },
        Value::Vec3f(x, y, z) => {
            push_float(*x, tags, data);
            push_float(*y, tags, data);
            push_float(*z, tags, data);
            proof {
                lemma_vector_frame(seq![*x, *y, *z]);
                assert(tags@ =~= old(tags)@ + tags_of(value@));
                assert(data@ =~= old(data)@ + data_of(value@));
            }
            true
        },
        Value::Vec4f(x, y, z, w) => {
            push_float(*x, tags, data);
            push_float(*y, tags, data);
            push_float(*z, tags, data);
            push_float(*w, tags, data);
            proof {
                lemma_vector_frame(seq![*x, *y, *z, *w]);
                assert(tags@ =~= old(tags)@ + tags_of(value@));
                assert(data@ =~= old(data)@ + data_of(value@));
            }
            true
        },
        Value::List(l) => {
            proof {
                lemma_list_view(*l);
            }
            tags.push(0x5b);
            if !push_atoms(l, tags, data) {
                return false;
            }
            tags.push(0x5d);
            assert(tags@ =~= old(tags)@ + tags_of(value@));
            true
        },
        _ => {
            let ok = push_atom(value, tags, data);
            proof {
                if ok {
                    let one = seq![value@];
                    assert(one.drop_first() =~= Seq::<ValueModel>::empty());
                    assert(atoms_data(one.drop_first()) =~= Seq::<u8>::empty());
                    assert(atoms_data(one) == atom_data(one[0]) + atoms_data(one.drop_first()));
                    assert(atoms_data(one) =~= atom_data(value@));
                    assert(atoms_tags(one) =~= seq![atom_tag(value@)]);
                    assert(tags@ =~= old(tags)@ + tags_of(value@));
                    assert(data@ =~= old(data)@ + data_of(value@));
                }
            }
            ok
        },
    }
}

/// Frames the message that carries `value` to `address`.
///
/// `InvalidArgument` exactly where the address or the value cannot be framed: an address
/// must begin with a slash and hold no zero byte; a string must hold no zero byte; a byte
/// buffer must be shorter than `2^32`; a list must hold atoms only.
pub fn encode(address: &str, value: &Value) -> (r: Result<Vec<u8>, Error>)
    ensures
        match r {
            Ok(b) => address_ok(address@) && encodable(value@) && b@ == encoded(address@, value@),
            Err(e) => e == Error::InvalidArgument && !(address_ok(address@) && encodable(value@)),
        },
{
    let a = address.as_bytes_vec();
    if a.len() == 0 || a[0] != 0x2f || !is_clean(&a) {
        return Err(Error::InvalidArgument);
    }
    let mut tags: Vec<u8> = vec![0x2c];
    let mut data: Vec<u8> = Vec::new();
    assert(tags@ =~= seq![0x2cu8]);
    if !push_value(value, &mut tags, &mut data) {
        return Err(Error::InvalidArgument);
    }
    assert(data@ =~= data_of(value@));
    let mut out: Vec<u8> = Vec::new();
    push_padded(&mut out, &a);
    push_padded(&mut out, &tags);
    push_all(&mut out, &data);
    assert(out@ =~= encoded(address@, value@));
    Ok(out)
}

/// The tags and the data of floats taken as atoms.
pub proof fn lemma_vector_frame(f: Seq<Float>)
    ensures
        atoms_tags(float_atoms(f)) == Seq::new(f.len(), |i: int| 0x66u8),
        f.len() == 2 ==> atoms_data(float_atoms(f)) == word(f[0].bits as int) + word(f[1].bits as int),
        f.len() == 3 ==> atoms_data(float_atoms(f)) == word(f[0].bits as int) + word(f[1].bits as int) + word(
            f[2].bits as int,
        ),
        f.len() == 4 ==> atoms_data(float_atoms(f)) == word(f[0].bits as int) + word(f[1].bits as int) + word(
            f[2].bits as int,
        ) + word(f[3].bits as int),
{
    assert(atoms_tags(float_atoms(f)) =~= Seq::new(f.len(), |i: int| 0x66u8));
    let a = float_atoms(f);
    if f.len() >= 2 && f.len() <= 4 {
        let a1 = a.drop_first();
        let a2 = a1.drop_first();
        assert(atoms_data(a) == atom_data(a[0]) + atoms_data(a1));
        assert(atoms_data(a1) == atom_data(a1[0]) + atoms_data(a2));
        if f.len() == 2 {
            assert(atoms_data(a2) =~= Seq::<u8>::empty());
            assert(atoms_data(a) =~= word(f[0].bits as int) + word(f[1].bits as int));
        } else {
            let a3 = a2.drop_first();
            assert(atoms_data(a2) == atom_data(a2[0]) + atoms_data(a3));
            if f.len() == 3 {
                assert(atoms_data(a3) =~= Seq::<u8>::empty());
                assert(atoms_data(a) =~= word(f[0].bits as int) + word(f[1].bits as int) + word(
                    f[2].bits as int,
                ));
            } else {
                let a4 = a3.drop_first();
                assert(atoms_data(a3) == atom_data(a3[0]) + atoms_data(a4));
                assert(atoms_data(a4) =~= Seq::<u8>::empty());
                assert(atoms_data(a) =~= word(f[0].bits as int) + word(f[1].bits as int) + word(
                    f[2].bits as int,
                ) + word(f[3].bits as int));
            }
        }
    }
}

/// The first position at or after `i` that holds `c`.
fn first(b: &[u8], i: usize, c: u8) -> (r: Option<usize>)
    ensures
        match r {
            Some(k) => first_at(b@, i as int, c) == Some(k as int) && i <= k < b.len() && b[k as int] == c,
            None => first_at(b@, i as int, c) is None,
        },
{
    let mut k: usize = i;
    while k < b.len()
        invariant
            i <= k,
            first_at(b@, i as int, c) == first_at(b@, k as int, c),
        decreases b.len() - k,
    {
        if b[k] == c {
            return Some(k);
        }
        k += 1;
    }
    None
}

/// Whether the bytes from `from` up to `to` are zero.
fn zero_run(b: &[u8], from: usize, to: usize) -> (r: bool)
    requires
        from <= to <= b.len(),
    ensures
        r == all_zero(b@, from as int, to as int),
{
    let mut x: usize = from;
    while x < to
        invariant
            from <= x <= to <= b.len(),
            forall|y: int| from <= y < x ==> #[trigger] b[y] == 0,
        decreases to - x,
    {
        if b[x] != 0 {
            return false;
        }
        x += 1;
    }
    true
}

/// A copy of the bytes from `from` up to `to`.
fn copy(b: &[u8], from: usize, to: usize) -> (r: Vec<u8>)
    requires
        from <= to <= b.len(),
    ensures
        r@ == b@.subrange(from as int, to as int),
{
    let mut out: Vec<u8> = Vec::new();
    let mut x: usize = from;
    while x < to
        invariant
            from <= x <= to <= b.len(),
            out@ == b@.subrange(from as int, x as int),
        decreases to - x,
    {
        out.push(b[x]);
        assert(out@ =~= b@.subrange(from as int, x + 1));
        x += 1;
    }
    out
}

/// The text that begins at `i`, and the position behind its padding.
fn text_at(b: &[u8], i: usize) -> (r: Option<(Vec<u8>, usize)>)
    ensures
        match r {
            Some((text, next)) => read_text(b@, i as int) == Some((text@, next as int)) && next <= b.len(),
            None => read_text(b@, i as int) is None,
        },
{
    match first(b, i, 0) {
        Some(k) => {
            let pad: usize = 4 - (k - i) % 4;
            if pad > b.len() - k {
                return None;
            }
            if !zero_run(b, k, k + pad) {
                return None;
            }
            Some((copy(b, i, k), k + pad))
        },
        None => None,
    }
}

/// The number that the four bytes at `d` spell.
fn word_at(b: &[u8], d: usize) -> (r: u32)
    requires
        d + 4 <= b.len(),
    ensures
        r == unword(b@, d as int),
{
    (b[d] as u32) * 0x100_0000 + (b[d + 1] as u32) * 0x1_0000 + (b[d + 2] as u32) * 0x100 + (b[d + 3] as u32)
}

/// The atom with type tag `tag` whose data begins at `d`, and the position behind it.
fn atom_at(tag: u8, b: &[u8], d: usize) -> (r: Option<(Value, usize)>)
    requires
        d <= b.len(),
    ensures
        match r {
            Some((v, next)) => read_atom(tag, b@, d as int) == Some((v@, next as int)) && next <= b.len(),
            None => read_atom(tag, b@, d as int) is None,
        },
{
    if tag == 0x69 {
        if b.len() - d < 4 {
            return None;
        }
        let w = word_at(b, d);
        let i: i32 = if w >= 0x8000_0000 {
            (w as i64 - 0x1_0000_0000) as i32
        } else {
            w as i32
        };
        Some((Value::Int(i), d + 4))
    } else if tag == 0x66 {
        if b.len() - d < 4 {
            return None;
        }
        Some((Value::Float(Float::from_bits(word_at(b, d))), d + 4))
    } else if tag == 0x63 {
        if b.len() - d < 4 {
            return None;
        }
        let w = word_at(b, d);
        if w >= 0x100 {
            return None;
        }
        Some((Value::Char(w as u8), d + 4))
    } else if tag == 0x54 {
        Some((Value::Bool(true), d))
    } else if tag == 0x46 {
        Some((Value::Bool(false), d))
    } else if tag == 0x49 {
        Some((Value::Impulse, d))
    } else if tag == 0x73 {
        match text_at(b, d) {
            Some((text, next)) => match text_of(text) {
                Some(s) => Some((Value::String(s), next)),
                None => None,
            },
            None => None,
        }
    } else if tag == 0x62 {
        if b.len() - d < 4 {
            return None;
        }
        let n = word_at(b, d) as usize;
        let pad: usize = (4 - n % 4) % 4;
        let room = b.len() - d - 4;
        if n > room || pad > room - n {
            return None;
        }
        if !zero_run(b, d + 4 + n, d + 4 + n + pad) {
            return None;
        }
        Some((Value::Bytes(copy(b, d + 4, d + 4 + n)), d + 4 + n + pad))
    } else {
        None
    }
}

/// Reads the atoms with the tags at `t` up to `k` and appends them.
fn atoms_at(tags: &Vec<u8>, t: usize, k: usize, b: &[u8], d: usize, out: &mut Vec<Value>) -> (r: Option<usize>)
    requires
        t <= k <= tags.len(),
        d <= b.len(),
    ensures
        match r {
            Some(next) => read_atoms(tags@, t as int, k as int, b@, d as int) matches Some((l, d2)) && next == d2
                && next <= b.len() && models(final(out)@) == models(old(out)@) + l,
            None => read_atoms(tags@, t as int, k as int, b@, d as int) is None,
        },
    decreases k - t,
{
    if t >= k {
        assert(models(out@) + Seq::<ValueModel>::empty() =~= models(out@));
        return Some(d);
    }
    match atom_at(tags[t], b, d) {
        Some((v, d1)) => {
            let ghost head = v@;
            out.push(v);
            let ghost mid = models(out@);
            assert(mid =~= models(old(out)@).push(head));
            match atoms_at(tags, t + 1, k, b, d1, out) {
                Some(next) => {
                    proof {
                        let rest = read_atoms(tags@, t + 1, k as int, b@, d1 as int)->Some_0.0;
                        assert(models(old(out)@).push(head) + rest =~= models(old(out)@) + (seq![head] + rest));
                    }
                    Some(next)
                },
                None => None,
            }
        },
        None => None,
    }
}

/// Reads the arguments with the tags from `t` on and appends them.
fn arguments_at(tags: &Vec<u8>, t: usize, b: &[u8], d: usize, out: &mut Vec<Value>) -> (r: Option<usize>)
    requires
        t <= tags.len(),
        d <= b.len(),
    ensures
        match r {
            Some(next) => read_arguments(tags@, t as int, b@, d as int) matches Some((l, d2)) && next == d2
                && next <= b.len() && models(final(out)@) == models(old(out)@) + l,
            None => read_arguments(tags@, t as int, b@, d as int) is None,
        },
    decreases tags.len() - t,
{
    if t >= tags.len() {
        assert(models(out@) + Seq::<ValueModel>::empty() =~= models(out@));
        return Some(d);
    }
    if tags[t] == 0x5b {
        match first(tags.as_slice(), t + 1, 0x5d) {
            Some(k) => {
                let mut inner: Vec<Value> = Vec::new();
                match atoms_at(tags, t + 1, k, b, d, &mut inner) {
                    Some(d1) => {
                        let ghost l = models(inner@);
                        proof {
                            lemma_list_view(inner);
                            assert(models(Seq::<Value>::empty()) + l =~= l);
                        }
                        out.push(Value::List(inner));
                        assert(models(out@) =~= models(old(out)@).push(ValueModel::List(l)));
                        match arguments_at(tags, k + 1, b, d1, out) {
                            Some(next) => {
                                proof {
                                    let rest = read_arguments(tags@, k + 1, b@, d1 as int)->Some_0.0;
                                    assert(models(old(out)@).push(ValueModel::List(l)) + rest =~= models(
                                        old(out)@,
                                    ) + (seq![ValueModel::List(l)] + rest));
                                }
                                Some(next)
                            },
                            None => None,
                        }
                    },
                    None => None,
                }
            },
            None => None,
        }
    } else {
        match atom_at(tags[t], b, d) {
            Some((v, d1)) => {
                let ghost head = v@;
                out.push(v);
                assert(models(out@) =~= models(old(out)@).push(head));
                match arguments_at(tags, t + 1, b, d1, out) {
                    Some(next) => {
                        proof {
                            let rest = read_arguments(tags@, t + 1, b@, d1 as int)->Some_0.0;
                            assert(models(old(out)@).push(head) + rest =~= models(old(out)@) + (seq![head]
                                + rest));
                        }
                        Some(next)
                    },
                    None => None,
                }
            },
            None => None,
        }
    }
}

/// Reads a message: the address and the value it carries, or `None` where the bytes are no
/// message.
pub fn decode(bytes: &[u8]) -> (r: Option<(String, Value)>)
    ensures
        match r {
            Some((a, v)) => decoded(bytes@) == Some((a@, v@)),
            None => decoded(bytes@) is None,
        },
{
    let (a, t0) = match text_at(bytes, 0) {
        Some(x) => x,
        None => {
            return None;
        },
    };
    if a.len() == 0 || a[0] != 0x2f {
        return None;
    }
    let address = match text_of(a) {
        Some(s) => s,
        None => {
            return None;
        },
    };
    let (tags, d0) = match text_at(bytes, t0) {
        Some(x) => x,
        None => {
            return None;
        },
    };
    if tags.len() == 0 || tags[0] != 0x2c {
        return None;
    }
    let mut args: Vec<Value> = Vec::new();
    let d = match arguments_at(&tags, 1, bytes, d0, &mut args) {
        Some(d) => d,
        None => {
            return None;
        },
    };
    if d != bytes.len() {
        return None;
    }
    proof {
        let l = read_arguments(tags@, 1, bytes@, d0 as int)->Some_0.0;
        assert(models(Seq::<Value>::empty()) + l =~= l);
    }
    let value = if args.len() == 0 {
        Value::Impulse
    } else if args.len() == 1 {
        let v = args.pop().unwrap();
        v
    } else {
        proof {
            lemma_list_view(args);
        }
        Value::List(args)
    };
    Some((address, value))
}

} // verus!
