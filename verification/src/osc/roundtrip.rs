//! What is framed is read back: the laws that tie reading a message to framing it.

use super::{address_ok, all_zero, arguments, atom_data, atom_ok, atom_tag, atoms_data, atoms_ok, atoms_tags, clean, data_of, decoded, encodable, encoded, first_at, is_atom, padded, read_arguments, read_atom, read_atoms, read_text, tags_of, twos, unword, value_of, word, zeros};
use crate::float::Float;
use crate::value::ValueModel;
use vstd::prelude::*;
use vstd::utf8::encode_utf8;

verus! {

/// Whether `b` holds the bytes `s` at position `d`.
pub open spec fn holds(b: Seq<u8>, d: int, s: Seq<u8>) -> bool {
    0 <= d && d + s.len() <= b.len() && b.subrange(d, d + s.len()) == s
}

/// Where a buffer holds two runs one behind the other, it holds each of them.
pub proof fn lemma_holds_split(b: Seq<u8>, d: int, s1: Seq<u8>, s2: Seq<u8>)
    requires
        holds(b, d, s1 + s2),
    ensures
        holds(b, d, s1),
        holds(b, d + s1.len(), s2),
{
    let whole = b.subrange(d, d + (s1 + s2).len());
    assert(b.subrange(d, d + s1.len()) =~= whole.subrange(0, s1.len() as int));
    assert(whole.subrange(0, s1.len() as int) =~= s1);
    assert(b.subrange(d + s1.len(), d + s1.len() + s2.len()) =~= whole.subrange(
        s1.len() as int,
        (s1 + s2).len() as int,
    ));
    assert(whole.subrange(s1.len() as int, (s1 + s2).len() as int) =~= s2);
}

/// A byte of a run that a buffer holds is the byte of the buffer at its place.
pub proof fn lemma_holds_index(b: Seq<u8>, d: int, s: Seq<u8>, j: int)
    requires
        holds(b, d, s),
        0 <= j < s.len(),
    ensures
        b[d + j] == s[j],
{
    assert(b.subrange(d, d + s.len())[j] == b[d + j]);
}

/// The first occurrence of a byte is where it stands with none before it.
pub proof fn lemma_first_at(b: Seq<u8>, i: int, k: int, c: u8)
    requires
        0 <= i <= k < b.len(),
        forall|j: int| i <= j < k ==> #[trigger] b[j] != c,
        b[k] == c,
    ensures
        first_at(b, i, c) == Some(k),
    decreases k - i,
{
    if i < k {
        assert(b[i] != c);
        lemma_first_at(b, i + 1, k, c);
    }
}

/// The four bytes of a number spell that number.
pub proof fn lemma_word_reads_back(b: Seq<u8>, d: int, x: int)
    requires
        0 <= x < 0x1_0000_0000,
        holds(b, d, word(x)),
    ensures
        unword(b, d) == x,
{
    lemma_holds_index(b, d, word(x), 0);
    lemma_holds_index(b, d, word(x), 1);
    lemma_holds_index(b, d, word(x), 2);
    lemma_holds_index(b, d, word(x), 3);
    let b0 = x / 0x100_0000 % 0x100;
    let b1 = x / 0x1_0000 % 0x100;
    let b2 = x / 0x100 % 0x100;
    let b3 = x % 0x100;
    assert(b0 * 0x100_0000 + b1 * 0x1_0000 + b2 * 0x100 + b3 == x);
}

/// A text that a buffer holds with its padding is read back, up to behind the padding.
pub proof fn lemma_text_reads_back(b: Seq<u8>, i: int, x: Seq<u8>)
    requires
        clean(x),
        holds(b, i, padded(x)),
    ensures
        read_text(b, i) == Some((x, i + padded(x).len())),
        padded(x).len() == x.len() + (4 - x.len() % 4),
{
    let pad = 4 - x.len() % 4;
    let k = i + x.len();
    lemma_holds_split(b, i, x, zeros(pad));
    assert forall|j: int| i <= j < k implies #[trigger] b[j] != 0 by {
        lemma_holds_index(b, i, x, j - i);
    }
    assert forall|j: int| k <= j < k + pad implies #[trigger] b[j] == 0 by {
        lemma_holds_index(b, k, zeros(pad), j - k);
    }
    assert(b[k] == 0);
    lemma_first_at(b, i, k, 0);
    assert((k - i) % 4 == x.len() % 4);
    assert(all_zero(b, k, k + pad));
}

/// An atom that a buffer holds the data of is read back under its tag.
pub proof fn lemma_atom_reads_back(b: Seq<u8>, d: int, v: ValueModel)
    requires
        is_atom(v),
        atom_ok(v),
        holds(b, d, atom_data(v)),
    ensures
        read_atom(atom_tag(v), b, d) == Some((v, d + atom_data(v).len())),
{
    match v {
        ValueModel::Int(i) => {
            lemma_word_reads_back(b, d, twos(i));
        },
        ValueModel::Float(f) => {
            lemma_word_reads_back(b, d, f.bits as int);
        },
        ValueModel::Char(c) => {
            lemma_word_reads_back(b, d, c as int);
        },
        ValueModel::String(s) => {
            lemma_text_reads_back(b, d, encode_utf8(s));
            vstd::utf8::encode_utf8_valid_utf8(s);
            vstd::utf8::encode_utf8_decode_utf8(s);
        },
        ValueModel::Bytes(x) => {
            let n = x.len() as int;
            let pad = (4 - n % 4) % 4;
            assert(atom_data(v) == (word(n) + x) + zeros(pad));
            lemma_holds_split(b, d, word(n) + x, zeros(pad));
            lemma_holds_split(b, d, word(n), x);
            lemma_word_reads_back(b, d, n);
            assert forall|j: int| d + 4 + n <= j < d + 4 + n + pad implies #[trigger] b[j] == 0 by {
                lemma_holds_index(b, d + 4 + n, zeros(pad), j - (d + 4 + n));
            }
            assert(all_zero(b, d + 4 + n, d + 4 + n + pad));
        },
        _ => {},
    }
}

/// Whether the tags from `t` on are those of the atoms `l`.
pub open spec fn tags_match(tags: Seq<u8>, t: int, l: Seq<ValueModel>) -> bool {
    0 <= t && t + l.len() <= tags.len() && forall|j: int| 0 <= j < l.len() ==> #[trigger] tags[t + j] == atom_tag(l[j])
}

/// A run of atoms that a buffer holds the data of is read back under its tags.
pub proof fn lemma_atoms_read_back(tags: Seq<u8>, t: int, b: Seq<u8>, d: int, l: Seq<ValueModel>)
    requires
        atoms_ok(l),
        tags_match(tags, t, l),
        holds(b, d, atoms_data(l)),
    ensures
        read_atoms(tags, t, t + l.len(), b, d) == Some((l, d + atoms_data(l).len())),
    decreases l.len(),
{
    if l.len() == 0 {
        assert(l =~= Seq::<ValueModel>::empty());
    } else {
        let rest = l.drop_first();
        assert(is_atom(l[0]) && atom_ok(l[0]));
        assert(tags[t + 0] == atom_tag(l[0]));
        lemma_holds_split(b, d, atom_data(l[0]), atoms_data(rest));
        lemma_atom_reads_back(b, d, l[0]);
        assert forall|j: int| 0 <= j < rest.len() implies is_atom(#[trigger] rest[j]) && atom_ok(rest[j]) by {
            assert(rest[j] == l[j + 1]);
        }
        assert forall|j: int| 0 <= j < rest.len() implies #[trigger] tags[(t + 1) + j] == atom_tag(rest[j]) by {
            assert(tags[t + (j + 1)] == atom_tag(l[j + 1]));
        }
        lemma_atoms_read_back(tags, t + 1, b, d + atom_data(l[0]).len(), rest);
        assert(seq![l[0]] + rest =~= l);
    }
}

/// A run of atoms at the end of the tags is read back as as many arguments.
pub proof fn lemma_arguments_read_back(tags: Seq<u8>, t: int, b: Seq<u8>, d: int, l: Seq<ValueModel>)
    requires
        atoms_ok(l),
        tags_match(tags, t, l),
        t + l.len() == tags.len(),
        holds(b, d, atoms_data(l)),
    ensures
        read_arguments(tags, t, b, d) == Some((l, d + atoms_data(l).len())),
    decreases l.len(),
{
    if l.len() == 0 {
        assert(l =~= Seq::<ValueModel>::empty());
    } else {
        let rest = l.drop_first();
        assert(is_atom(l[0]) && atom_ok(l[0]));
        assert(tags[t + 0] == atom_tag(l[0]));
        lemma_holds_split(b, d, atom_data(l[0]), atoms_data(rest));
        lemma_atom_reads_back(b, d, l[0]);
        assert forall|j: int| 0 <= j < rest.len() implies is_atom(#[trigger] rest[j]) && atom_ok(rest[j]) by {
            assert(rest[j] == l[j + 1]);
        }
        assert forall|j: int| 0 <= j < rest.len() implies #[trigger] tags[(t + 1) + j] == atom_tag(rest[j]) by {
            assert(tags[t + (j + 1)] == atom_tag(l[j + 1]));
        }
        lemma_arguments_read_back(tags, t + 1, b, d + atom_data(l[0]).len(), rest);
        assert(seq![l[0]] + rest =~= l);
    }
}

/// The arguments of a value that a buffer holds the data of are read back under the tags
/// of the value behind the comma.
pub proof fn lemma_value_reads_back(b: Seq<u8>, d: int, v: ValueModel)
    requires
        encodable(v),
        holds(b, d, data_of(v)),
    ensures
        read_arguments(seq![0x2cu8] + tags_of(v), 1, b, d) == Some((arguments(v), d + data_of(v).len())),
{
    let tags = seq![0x2cu8] + tags_of(v);
    match v {
        ValueModel::List(l) => {
            let k = 2 + l.len() as int;
            assert(tags.len() == k + 1);
            assert(tags[1] == 0x5b);
            assert forall|j: int| 0 <= j < l.len() implies #[trigger] tags[2 + j] == atom_tag(l[j]) by {
                assert(tags[2 + j] == tags_of(v)[1 + j]);
                assert(tags_of(v)[1 + j] == atoms_tags(l)[j]);
            }
            assert forall|j: int| 2 <= j < k implies #[trigger] tags[j] != 0x5d by {
                assert(tags[2 + (j - 2)] == atom_tag(l[j - 2]));
            }
            assert(tags[k] == 0x5d) by {
                assert(tags[k] == tags_of(v)[k - 1]);
            }
            lemma_first_at(tags, 2, k, 0x5d);
            lemma_atoms_read_back(tags, 2, b, d, l);
            let d1 = d + atoms_data(l).len();
            assert(read_arguments(tags, k + 1, b, d1) == Some((Seq::<ValueModel>::empty(), d1)));
            assert(seq![ValueModel::List(l)] + Seq::<ValueModel>::empty() =~= seq![v]);
        },
        _ => {
            let l = arguments(v);
            assert(atoms_ok(l)) by {
                assert forall|j: int| 0 <= j < l.len() implies is_atom(#[trigger] l[j]) && atom_ok(l[j]) by {}
            }
            assert forall|j: int| 0 <= j < l.len() implies #[trigger] tags[1 + j] == atom_tag(l[j]) by {
                assert(tags[1 + j] == tags_of(v)[j]);
            }
            lemma_arguments_read_back(tags, 1, b, d, l);
        },
    }
}

/// The tag string of a value holds no zero byte.
pub proof fn lemma_tags_are_clean(v: ValueModel)
    ensures
        clean(seq![0x2cu8] + tags_of(v)),
{
    let tags = seq![0x2cu8] + tags_of(v);
    assert forall|i: int| 0 <= i < tags.len() implies #[trigger] tags[i] != 0 by {
        if i > 0 {
            assert(tags[i] == tags_of(v)[i - 1]);
            match v {
                ValueModel::List(l) => {
                    if 0 < i - 1 < l.len() + 1 {
                        assert(tags_of(v)[i - 1] == atom_tag(l[i - 2]));
                    }
                },
                _ => {
                    assert(tags_of(v)[i - 1] == atom_tag(arguments(v)[i - 1]));
                },
            }
        }
    }
}

/// A message that was framed is read back: the address it was framed for, and the value it
/// was framed from as its arguments carry it, which is the value itself for an atom and for
/// a list, and the list of its components for a vector.
pub proof fn lemma_framed_is_read_back(a: Seq<char>, v: ValueModel)
    requires
        address_ok(a),
        encodable(v),
    ensures
        decoded(encoded(a, v)) == Some((a, value_of(arguments(v)))),
        is_atom(v) || v is List ==> value_of(arguments(v)) == v,
{
    let b = encoded(a, v);
    let addr = encode_utf8(a);
    let tags = seq![0x2cu8] + tags_of(v);
    let t0 = padded(addr).len() as int;
    let d0 = t0 + padded(tags).len();
    assert(b == (padded(addr) + padded(tags)) + data_of(v));
    assert(holds(b, 0, (padded(addr) + padded(tags)) + data_of(v))) by {
        assert(b.subrange(0, b.len() as int) =~= b);
    }
    lemma_holds_split(b, 0, padded(addr) + padded(tags), data_of(v));
    lemma_holds_split(b, 0, padded(addr), padded(tags));
    lemma_text_reads_back(b, 0, addr);
    lemma_tags_are_clean(v);
    lemma_text_reads_back(b, t0, tags);
    vstd::utf8::encode_utf8_valid_utf8(a);
    vstd::utf8::encode_utf8_decode_utf8(a);
    lemma_value_reads_back(b, d0, v);
    assert(tags[0] == 0x2c);
    assert(d0 + data_of(v).len() == b.len());
}

} // verus!
