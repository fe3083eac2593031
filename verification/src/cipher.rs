use vstd::prelude::*;

use crate::alphabet::DictWrap;
use crate::alphabet::SIZE;
use crate::alphabet::in_domain;
use crate::alphabet::lemma_sym_at_index;
use crate::alphabet::lemma_sym_index_injective;
use crate::alphabet::sym_at;
use crate::alphabet::sym_index;

verus! {

/// Why an encode or decode call was rejected.
#[derive(Debug)]
pub enum ErrorCode {
    /// A character of the text or of the key is not in the alphabet.
    InvalidChar(char),
    /// A position outside the table was asked for.
    InvalidIndex(usize),
}

/// The substitution table ("tabula recta"): a 192 by 192 grid whose row `r`
/// is the alphabet rotated left by `r` positions.
pub struct VigMatrixWrap(pub Vec<Vec<char>>);

impl VigMatrixWrap {
    /// The table is well formed when every cell `(r, c)` holds the alphabet
    /// symbol at position `(r + c) % 192`.
    pub open spec fn wf(&self) -> bool {
        &&& self.0@.len() == 192
        &&& forall|r: int| 0 <= r < 192 ==> #[trigger] self.0@[r]@.len() == 192
        &&& forall|r: int, c: int|
            0 <= r < 192 && 0 <= c < 192 ==> #[trigger] sym_index(self.0@[r]@[c]) == (r + c) % 192
    }

    /// Builds the table from a fresh alphabet by the closed-form rule
    /// `table[r][c] = alphabet[(r + c) % 192]`.
    pub fn new() -> (m: VigMatrixWrap)
        ensures
            m.wf(),
    {
        let dict = DictWrap::new();
        let mut rows: Vec<Vec<char>> = Vec::new();
        let mut r: usize = 0;
        while r < SIZE
            invariant
                dict.wf(),
                r <= 192,
                rows@.len() == r,
                forall|i: int| 0 <= i < r ==> #[trigger] rows@[i]@.len() == 192,
                forall|i: int, c: int|
                    0 <= i < r && 0 <= c < 192 ==> #[trigger] sym_index(rows@[i]@[c]) == (i + c)
                        % 192,
            decreases 192 - r,
        {
            let mut row: Vec<char> = Vec::new();
            let mut c: usize = 0;
            while c < SIZE
                invariant
                    dict.wf(),
                    r < 192,
                    c <= 192,
                    row@.len() == c,
                    forall|j: int|
                        0 <= j < c ==> #[trigger] sym_index(row@[j]) == (r + j) % 192,
                decreases 192 - c,
            {
                let idx: usize = (r + c) % SIZE;
                row.push(dict.0[idx]);
                c += 1;
            }
            rows.push(row);
            r += 1;
        }
        VigMatrixWrap(rows)
    }
}

/// Position of a character in the alphabet, found by scanning the table's
/// first row; rejects a character outside the alphabet.
pub fn index_finder(ch: char, matrix: &VigMatrixWrap) -> (r: Result<usize, ErrorCode>)
    requires
        matrix.wf(),
    ensures
        match r {
            Ok(i) => in_domain(ch) && i == sym_index(ch),
            Err(e) => !in_domain(ch) && e == ErrorCode::InvalidChar(ch),
        },
{
    let row = &matrix.0[0];
    let mut index: usize = 0;
    while index < SIZE
        invariant
            matrix.wf(),
            row == matrix.0@[0],
            index <= 192,
            forall|j: int| 0 <= j < index ==> matrix.0@[0]@[j] != ch,
        decreases 192 - index,
    {
        if ch == row[index] {
            proof {
                lemma_sym_at_index(index as int);
            }
            return Ok(index);
        }
        index += 1;
    }
    proof {
        if in_domain(ch) {
            let k = sym_index(ch);
            assert(sym_index(matrix.0@[0]@[k]) == k);
            lemma_sym_index_injective(ch, matrix.0@[0]@[k]);
            assert(false);
        }
    }
    Err(ErrorCode::InvalidChar(ch))
}

/// Character standing at a given position of the alphabet (the table's first
/// row); rejects a position outside the table.
pub fn char_finder(index: usize, mat: &VigMatrixWrap) -> (r: Result<char, ErrorCode>)
    requires
        mat.wf(),
    ensures
        match r {
            Ok(c) => index < 192 && c == sym_at(index as int),
            Err(e) => index >= 192 && e == ErrorCode::InvalidIndex(index),
        },
{
    if index < SIZE {
        let c = mat.0[0][index];
        proof {
            lemma_sym_at_index(index as int);
            lemma_sym_index_injective(c, sym_at(index as int));
        }
        Ok(c)
    } else {
        Err(ErrorCode::InvalidIndex(index))
    }
}

/// Table cell for a message character (column) and a key character (row):
/// the alphabet symbol at position `(row + column) % 192`. The message
/// character is validated first, then the key character.
pub fn vig_matcher(matrix: &VigMatrixWrap, msg_char: char, key_char: char) -> (r: Result<
    char,
    ErrorCode,
>)
    requires
        matrix.wf(),
    ensures
        match r {
            Ok(c) => in_domain(msg_char) && in_domain(key_char) && c == sym_at(
                (sym_index(key_char) + sym_index(msg_char)) % 192,
            ),
            Err(e) => (!in_domain(msg_char) && e == ErrorCode::InvalidChar(msg_char)) || (
            in_domain(msg_char) && !in_domain(key_char) && e == ErrorCode::InvalidChar(key_char)),
        },
{
    let index_col = index_finder(msg_char, matrix)?;
    let index_row = index_finder(key_char, matrix)?;
    let c = matrix.0[index_row][index_col];
    proof {
        lemma_sym_at_index((index_row + index_col) % 192);
        lemma_sym_index_injective(c, sym_at((index_row + index_col) % 192));
    }
    Ok(c)
}

/// The key stretched (or trimmed) to a given length by cyclic repetition
/// from its first symbol: position `i` holds `key[i % key.len()]`.
pub open spec fn expanded_key(key: Seq<char>, n: nat) -> Seq<char> {
    Seq::new(n, |i: int| key[i % key.len() as int])
}

/// Extends (or trims) the key string to exactly `msg_size` characters by
/// repeating its characters cyclically from the start.
pub fn complete_key(key: &str, msg_size: usize) -> (r: String)
    requires
        key@.len() > 0,
    ensures
        r@ == expanded_key(key@, msg_size as nat),
{
    let n = key.unicode_len();
    let mut new_key = String::new();
    let mut i: usize = 0;
    while i < msg_size
        invariant
            n == key@.len(),
            n > 0,
            i <= msg_size,
            new_key@.len() == i,
            forall|j: int| 0 <= j < i ==> new_key@[j] == key@[j % n as int],
        decreases msg_size - i,
    {
        let c = key.get_char(i % n);
        new_key.push(c);
        i += 1;
    }
    proof {
        assert(new_key@ =~= expanded_key(key@, msg_size as nat));
    }
    new_key
}

/// Ciphertext symbol for a message symbol `m` under a key symbol `k`: the
/// alphabet symbol at position `(index(k) + index(m)) % 192`.
pub open spec fn enc_char(m: char, k: char) -> char {
    sym_at((sym_index(k) + sym_index(m)) % 192)
}

/// Message symbol recovered from a ciphertext symbol `c` under a key symbol
/// `k`: the alphabet symbol at position `(index(c) - index(k)) % 192`,
/// normalized into `[0, 192)`.
pub open spec fn dec_char(c: char, k: char) -> char {
    sym_at((sym_index(c) - sym_index(k)) % 192)
}

/// The whole encode transform: each message position substituted under the
/// key expanded to the message's length.
pub open spec fn encode_seq(msg: Seq<char>, key: Seq<char>) -> Seq<char> {
    Seq::new(msg.len(), |i: int| enc_char(msg[i], expanded_key(key, msg.len())[i]))
}

/// The whole decode transform: the inverse substitution at each position.
pub open spec fn decode_seq(ct: Seq<char>, key: Seq<char>) -> Seq<char> {
    Seq::new(ct.len(), |i: int| dec_char(ct[i], expanded_key(key, ct.len())[i]))
}

/// Encoding succeeds at position `i` when both the message symbol and the
/// expanded-key symbol there are in the alphabet.
pub open spec fn enc_ok_at(msg: Seq<char>, key: Seq<char>, i: int) -> bool {
    in_domain(msg[i]) && in_domain(expanded_key(key, msg.len())[i])
}

/// Encoding succeeds as a whole when it succeeds at every position.
pub open spec fn enc_ok(msg: Seq<char>, key: Seq<char>) -> bool {
    forall|i: int| 0 <= i < msg.len() ==> #[trigger] enc_ok_at(msg, key, i)
}

/// The character encode reports when position `j` is invalid: the message
/// symbol is checked before the key symbol.
pub open spec fn enc_err_char(msg: Seq<char>, key: Seq<char>, j: int) -> char {
    if !in_domain(msg[j]) {
        msg[j]
    } else {
        expanded_key(key, msg.len())[j]
    }
}

/// Encodes a message with a key using a substitution table: fails on the
/// first out-of-alphabet character (message symbol checked before key symbol
/// at each position), otherwise substitutes every position.
pub fn encode(msg: &str, key: &str, vig_mat: &VigMatrixWrap) -> (r: Result<String, ErrorCode>)
    requires
        vig_mat.wf(),
        key@.len() > 0,
    ensures
        match r {
            Ok(out) => enc_ok(msg@, key@) && out@ == encode_seq(msg@, key@) && out@.len()
                == msg@.len(),
            Err(e) => exists|j: int|
                0 <= j < msg@.len() && !(#[trigger] enc_ok_at(msg@, key@, j)) && (forall|k: int|
                    0 <= k < j ==> enc_ok_at(msg@, key@, k)) && e == ErrorCode::InvalidChar(
                    enc_err_char(msg@, key@, j),
                ),
        },
{
    let msg_size = msg.unicode_len();

    let mut encrypted_msg = String::new();

    // The expansion is always recomputed, even when the key already has the
    // message's length: the result is the same either way.
    let key_e: String = complete_key(key, msg_size);
    let ghost ekey = expanded_key(key@, msg@.len());

    let mut i: usize = 0;
    while i < msg_size
        invariant
            vig_mat.wf(),
            key@.len() > 0,
            msg_size == msg@.len(),
            key_e@ == ekey,
            ekey == expanded_key(key@, msg@.len()),
            i <= msg_size,
            encrypted_msg@.len() == i,
            forall|k: int| 0 <= k < i ==> #[trigger] enc_ok_at(msg@, key@, k),
            forall|k: int| 0 <= k < i ==> encrypted_msg@[k] == enc_char(msg@[k], ekey[k]),
        decreases msg_size - i,
    {
        let mc = msg.get_char(i);
        let kc = key_e.as_str().get_char(i);
        match vig_matcher(vig_mat, mc, kc) {
            Ok(c) => {
                encrypted_msg.push(c);
            },
            Err(e) => {
                proof {
                    assert(!enc_ok_at(msg@, key@, i as int));
                    assert(e == ErrorCode::InvalidChar(enc_err_char(msg@, key@, i as int)));
                }
                return Err(e);
            },
        }
        i += 1;
    }
    proof {
        assert(encrypted_msg@ =~= encode_seq(msg@, key@));
    }
    Ok(encrypted_msg)
}

/// Decoding succeeds at position `i` when both the expanded-key symbol and
/// the ciphertext symbol there are in the alphabet.
pub open spec fn dec_ok_at(ct: Seq<char>, key: Seq<char>, i: int) -> bool {
    in_domain(expanded_key(key, ct.len())[i]) && in_domain(ct[i])
}

/// Decoding succeeds as a whole when it succeeds at every position.
pub open spec fn dec_ok(ct: Seq<char>, key: Seq<char>) -> bool {
    forall|i: int| 0 <= i < ct.len() ==> #[trigger] dec_ok_at(ct, key, i)
}

/// The character decode reports when position `j` is invalid: the key symbol
/// is checked before the ciphertext symbol.
pub open spec fn dec_err_char(ct: Seq<char>, key: Seq<char>, j: int) -> char {
    if !in_domain(expanded_key(key, ct.len())[j]) {
        expanded_key(key, ct.len())[j]
    } else {
        ct[j]
    }
}

/// Decodes an encoded message with a key using a substitution table: fails
/// on the first out-of-alphabet character (key symbol checked before
/// ciphertext symbol at each position), otherwise inverts the substitution
/// at every position. An out-of-alphabet ciphertext symbol is an error,
/// never silently mapped to a default.
pub fn decode(enc_msg: &str, key: &str, vig_mat: &VigMatrixWrap) -> (r: Result<String, ErrorCode>)
    requires
        vig_mat.wf(),
        key@.len() > 0,
    ensures
        match r {
            Ok(out) => dec_ok(enc_msg@, key@) && out@ == decode_seq(enc_msg@, key@) && out@.len()
                == enc_msg@.len(),
            Err(e) => exists|j: int|
                0 <= j < enc_msg@.len() && !(#[trigger] dec_ok_at(enc_msg@, key@, j)) && (forall|
                    k: int,
                |
                    0 <= k < j ==> dec_ok_at(enc_msg@, key@, k)) && e == ErrorCode::InvalidChar(
                    dec_err_char(enc_msg@, key@, j),
                ),
        },
{
    let msg_size = enc_msg.unicode_len();

    let mut decrypted_msg = String::new();

    // The expansion is always recomputed, even when the key already has the
    // message's length: the result is the same either way.
    let key_e: String = complete_key(key, msg_size);
    let ghost ekey = expanded_key(key@, enc_msg@.len());

    let mut letter: usize = 0;
    while letter < msg_size
        invariant
            vig_mat.wf(),
            key@.len() > 0,
            msg_size == enc_msg@.len(),
            key_e@ == ekey,
            ekey == expanded_key(key@, enc_msg@.len()),
            letter <= msg_size,
            decrypted_msg@.len() == letter,
            forall|k: int| 0 <= k < letter ==> #[trigger] dec_ok_at(enc_msg@, key@, k),
            forall|k: int| 0 <= k < letter ==> decrypted_msg@[k] == dec_char(enc_msg@[k], ekey[k]),
        decreases msg_size - letter,
    {
        let kc = key_e.as_str().get_char(letter);
        let cc = enc_msg.get_char(letter);
        let key_index = match index_finder(kc, vig_mat) {
            Ok(ki) => ki,
            Err(e) => {
                proof {
                    assert(!dec_ok_at(enc_msg@, key@, letter as int));
                    assert(e == ErrorCode::InvalidChar(dec_err_char(enc_msg@, key@, letter as int)));
                }
                return Err(e);
            },
        };
        let msg_index = match index_finder(cc, vig_mat) {
            Ok(ci) => ci,
            Err(e) => {
                proof {
                    assert(!dec_ok_at(enc_msg@, key@, letter as int));
                    assert(e == ErrorCode::InvalidChar(dec_err_char(enc_msg@, key@, letter as int)));
                }
                return Err(e);
            },
        };
        let col: usize = (msg_index + SIZE - key_index) % SIZE;
        assert(col as int == (sym_index(cc) - sym_index(kc)) % 192);
        let c = match char_finder(col, vig_mat) {
            Ok(c) => c,
            Err(_) => {
                proof {
                    assert(false);
                }
                unreached()
            },
        };
        decrypted_msg.push(c);
        letter += 1;
    }
    proof {
        assert(decrypted_msg@ =~= decode_seq(enc_msg@, key@));
    }
    Ok(decrypted_msg)
}

/// What one decoded character becomes when rendered: a space turns into the
/// non-breaking-space marker, a line feed or carriage return into the
/// line-break marker, and every other character passes through unchanged.
pub open spec fn marker_of(c: char) -> Seq<char> {
    if c == ' ' {
        seq!['&', 'n', 'b', 's', 'p', ';']
    } else if c == '\n' || c == '\r' {
        seq!['<', 'b', 'r', '>']
    } else {
        seq![c]
    }
}

/// A whole text rendered for display: the markers of its characters, in order.
pub open spec fn display_of(s: Seq<char>) -> Seq<char>
    decreases s.len(),
{
    if s.len() == 0 {
        Seq::empty()
    } else {
        display_of(s.drop_last()) + marker_of(s.last())
    }
}

/// Renders a decoded text for a whitespace-sensitive display context:
/// replaces each space with the non-breaking-space marker and each line feed
/// or carriage return with the line-break marker, so that runs of blanks and
/// line breaks stay visible. Purely presentational; not meant to be fed back
/// into decode.
pub fn for_display(text: &str) -> (r: String)
    ensures
        r@ == display_of(text@),
{
    let n = text.unicode_len();
    let mut out = String::new();
    let mut i: usize = 0;
    while i < n
        invariant
            n == text@.len(),
            i <= n,
            out@ == display_of(text@.subrange(0, i as int)),
        decreases n - i,
    {
        let ch = text.get_char(i);
        if ch == ' ' {
            out.push('&');
            out.push('n');
            out.push('b');
            out.push('s');
            out.push('p');
            out.push(';');
        } else if ch == '\n' || ch == '\r' {
            out.push('<');
            out.push('b');
            out.push('r');
            out.push('>');
        } else {
            out.push(ch);
        }
        proof {
            let pre = text@.subrange(0, i as int);
            let ext = text@.subrange(0, i + 1 as int);
            assert(ext.drop_last() =~= pre);
            assert(ext.last() == text@[i as int]);
            assert(out@ =~= display_of(pre) + marker_of(text@[i as int]));
            assert(out@ == display_of(ext));
        }
        i += 1;
    }
    proof {
        assert(text@.subrange(0, n as int) =~= text@);
    }
    out
}

/// Decodes a message, then renders the result for display: spaces become the
/// non-breaking-space marker and line breaks the line-break marker, so that
/// consecutive blanks survive rendered markup. Fails exactly as decode does.
pub fn decode_web(enc_msg: &str, key: &str, vig_mat: &VigMatrixWrap) -> (r: Result<
    String,
    ErrorCode,
>)
    requires
        vig_mat.wf(),
        key@.len() > 0,
    ensures
        match r {
            Ok(out) => dec_ok(enc_msg@, key@) && out@ == display_of(decode_seq(enc_msg@, key@)),
            Err(e) => exists|j: int|
                0 <= j < enc_msg@.len() && !(#[trigger] dec_ok_at(enc_msg@, key@, j)) && (forall|
                    k: int,
                |
                    0 <= k < j ==> dec_ok_at(enc_msg@, key@, k)) && e == ErrorCode::InvalidChar(
                    dec_err_char(enc_msg@, key@, j),
                ),
        },
{
    let decoded = decode(enc_msg, key, vig_mat)?;
    Ok(for_display(decoded.as_str()))
}

} // verus!
