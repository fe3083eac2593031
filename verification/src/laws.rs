use vstd::prelude::*;

use vstd::arithmetic::div_mod::lemma_mod_mod;
use vstd::arithmetic::div_mod::lemma_small_mod;

use crate::alphabet::DictWrap;
use crate::alphabet::all_in_domain;
use crate::alphabet::in_domain;
use crate::alphabet::lemma_sym_at_index;
use crate::alphabet::lemma_sym_at_inverse;
use crate::alphabet::lemma_sym_index_injective;
use crate::alphabet::sym_index;
use crate::cipher::VigMatrixWrap;
use crate::cipher::dec_char;
use crate::cipher::decode_seq;
use crate::cipher::enc_char;
use crate::cipher::enc_ok;
use crate::cipher::enc_ok_at;
use crate::cipher::encode_seq;
use crate::cipher::expanded_key;

verus! {

/// A text and a key drawn entirely from the alphabet make every position of
/// the encode transform valid.
pub proof fn lemma_domain_enc_ok(msg: Seq<char>, key: Seq<char>)
    requires
        key.len() > 0,
        all_in_domain(msg),
        all_in_domain(key),
    ensures
        enc_ok(msg, key),
{
    assert forall|i: int| 0 <= i < msg.len() implies #[trigger] enc_ok_at(msg, key, i) by {
        let k = key.len() as int;
        assert(0 <= i % k < k);
        assert(in_domain(key[i % k]));
    }
}

/// Round trip: decoding an encoded text with the same key gives the text
/// back, for any plaintext and any non-empty key drawn from the alphabet.
pub proof fn lemma_round_trip(msg: Seq<char>, key: Seq<char>)
    requires
        key.len() > 0,
        all_in_domain(msg),
        all_in_domain(key),
    ensures
        decode_seq(encode_seq(msg, key), key) == msg,
{
    let ct = encode_seq(msg, key);
    let ekey = expanded_key(key, msg.len());
    assert forall|i: int| 0 <= i < msg.len() implies decode_seq(ct, key)[i] == msg[i] by {
        let k = key.len() as int;
        assert(0 <= i % k < k);
        assert(in_domain(key[i % k]));
        let sk = sym_index(ekey[i]);
        let sm = sym_index(msg[i]);
        lemma_sym_at_index((sk + sm) % 192);
        assert(sym_index(ct[i]) == (sk + sm) % 192);
        assert(((sk + sm) % 192 - sk) % 192 == sm);
        assert(dec_char(ct[i], ekey[i]) == msg[i]) by {
            lemma_sym_at_inverse(msg[i]);
        }
    }
    assert(decode_seq(ct, key) =~= msg);
}

/// Length preservation at the level of the transforms themselves: encoding
/// and decoding never change the length of the text.
pub proof fn lemma_length_preservation(text: Seq<char>, key: Seq<char>)
    ensures
        encode_seq(text, key).len() == text.len(),
        decode_seq(text, key).len() == text.len(),
{
}

/// Key-length independence: a key repeated twice expands to the same
/// sequence, so it encodes every text to the same ciphertext.
pub proof fn lemma_key_doubling(msg: Seq<char>, key: Seq<char>)
    requires
        key.len() > 0,
    ensures
        encode_seq(msg, key + key) == encode_seq(msg, key),
{
    let k = key.len() as int;
    let n = msg.len();
    assert forall|i: int| 0 <= i < n implies expanded_key(key + key, n)[i] == expanded_key(
        key,
        n,
    )[i] by {
        assert((key + key).len() == k * 2);
        lemma_mod_mod(i, k, 2);
        let j = i % (k * 2);
        assert(0 <= j < k * 2);
        if j < k {
            lemma_small_mod(j as nat, k as nat);
            assert((key + key)[j] == key[j]);
        } else {
            lemma_small_mod((j - k) as nat, k as nat);
            assert((j - k) % k == j % k) by {
                vstd::arithmetic::div_mod::lemma_mod_sub_multiples_vanish(j, k);
            }
            assert((key + key)[j] == key[j - k]);
        }
    }
    assert(expanded_key(key + key, n) =~= expanded_key(key, n));
    assert forall|i: int| 0 <= i < n implies encode_seq(msg, key + key)[i] == encode_seq(
        msg,
        key,
    )[i] by {
        assert(enc_char(msg[i], expanded_key(key + key, n)[i]) == enc_char(
            msg[i],
            expanded_key(key, n)[i],
        ));
    }
    assert(encode_seq(msg, key + key) =~= encode_seq(msg, key));
}

/// Identity row: the first row of a well-formed substitution table is the
/// alphabet itself.
pub proof fn lemma_identity_row(m: VigMatrixWrap, d: DictWrap)
    requires
        m.wf(),
        d.wf(),
    ensures
        m.0@[0]@ == d.0@,
{
    assert forall|c: int| 0 <= c < 192 implies m.0@[0]@[c] == d.0@[c] by {
        assert(sym_index(m.0@[0]@[c]) == (0 + c) % 192);
        lemma_small_mod(c as nat, 192nat);
        lemma_sym_index_injective(m.0@[0]@[c], d.0@[c]);
    }
    assert(m.0@[0]@ =~= d.0@);
}

/// Some cell of row `r` holds the symbol `x`.
pub open spec fn row_contains(m: VigMatrixWrap, r: int, x: char) -> bool {
    exists|c: int| 0 <= c < 192 && #[trigger] m.0@[r]@[c] == x
}

/// Some cell of column `c` holds the symbol `x`.
pub open spec fn col_contains(m: VigMatrixWrap, c: int, x: char) -> bool {
    exists|r: int| 0 <= r < 192 && #[trigger] m.0@[r]@[c] == x
}

/// Table bijection: in a well-formed substitution table, every row and every
/// column is a permutation of the alphabet — no symbol repeats within a row
/// or a column, and every alphabet symbol occurs in each.
pub proof fn lemma_table_bijection(m: VigMatrixWrap, d: DictWrap)
    requires
        m.wf(),
        d.wf(),
    ensures
        forall|r: int, c1: int, c2: int|
            0 <= r < 192 && 0 <= c1 < 192 && 0 <= c2 < 192 && c1 != c2 ==> #[trigger] m.0@[r]@[c1]
                != #[trigger] m.0@[r]@[c2],
        forall|c: int, r1: int, r2: int|
            0 <= c < 192 && 0 <= r1 < 192 && 0 <= r2 < 192 && r1 != r2 ==> #[trigger] m.0@[r1]@[c]
                != #[trigger] m.0@[r2]@[c],
        forall|r: int, i: int|
            0 <= r < 192 && 0 <= i < 192 ==> #[trigger] row_contains(m, r, d.0@[i]),
        forall|c: int, i: int|
            0 <= c < 192 && 0 <= i < 192 ==> #[trigger] col_contains(m, c, d.0@[i]),
{
    assert forall|r: int, c1: int, c2: int|
        0 <= r < 192 && 0 <= c1 < 192 && 0 <= c2 < 192 && c1 != c2 implies #[trigger] m.0@[r]@[c1]
        != #[trigger] m.0@[r]@[c2] by {
        assert(sym_index(m.0@[r]@[c1]) == (r + c1) % 192);
        assert(sym_index(m.0@[r]@[c2]) == (r + c2) % 192);
        assert((r + c1) % 192 != (r + c2) % 192);
    }
    assert forall|c: int, r1: int, r2: int|
        0 <= c < 192 && 0 <= r1 < 192 && 0 <= r2 < 192 && r1 != r2 implies #[trigger] m.0@[r1]@[c]
        != #[trigger] m.0@[r2]@[c] by {
        assert(sym_index(m.0@[r1]@[c]) == (r1 + c) % 192);
        assert(sym_index(m.0@[r2]@[c]) == (r2 + c) % 192);
        assert((r1 + c) % 192 != (r2 + c) % 192);
    }
    assert forall|r: int, i: int| 0 <= r < 192 && 0 <= i < 192 implies #[trigger] row_contains(
        m,
        r,
        d.0@[i],
    ) by {
        let c = (i - r) % 192;
        assert(0 <= c < 192);
        assert((r + c) % 192 == i);
        lemma_sym_index_injective(m.0@[r]@[c], d.0@[i]);
        assert(m.0@[r]@[c] == d.0@[i]);
    }
    assert forall|c: int, i: int| 0 <= c < 192 && 0 <= i < 192 implies #[trigger] col_contains(
        m,
        c,
        d.0@[i],
    ) by {
        let r = (i - c) % 192;
        assert(0 <= r < 192);
        assert((r + c) % 192 == i);
        lemma_sym_index_injective(m.0@[r]@[c], d.0@[i]);
        assert(m.0@[r]@[c] == d.0@[i]);
    }
}

} // verus!
