//! Tokenizer and classifier: from raw payload bytes to a typed message.
//!
//! Decoding is a two-phase pipeline. [`tokenize`] splits a payload into the
//! run of whitespace-delimited atoms standing before the first semicolon.
//! [`classify`] applies the protocol's ordered inference rules to that run
//! and builds the typed message. [`get_message`] chains the two.
#![allow(unused_imports)]
use vstd::prelude::*;
use vstd::slice::slice_index_get;

use crate::bang_kw;
use crate::float_kw;
use crate::list_kw;
use crate::symbol_kw;
use crate::views_of;
use crate::DecodeError;
use crate::GenericMessage;
use crate::MessageModel;
use crate::PdMessage;

verus! {

/// A byte the protocol treats as whitespace between atoms: space, tab, or
/// newline.
pub open spec fn is_fudi_whitespace(b: u8) -> bool {
    b == 32 || b == 9 || b == 10
}

/// A byte that can stand inside an atom: anything but whitespace and the
/// semicolon terminator.
pub open spec fn is_atom_byte(b: u8) -> bool {
    !is_fudi_whitespace(b) && b != 59
}

/// Test a byte for being considered whitespace in FUDI
/// (ASCII 32 (space), 9 (tab), or 10 (newline)).
pub fn is_whitespace(c: u8) -> (r: bool)
    ensures
        r == is_fudi_whitespace(c),
{
    (c == 32) || (c == 9) || (c == 10)
}

/// Test a byte for *not* being considered whitespace in FUDI.
pub fn is_not_whitespace(c: u8) -> (r: bool)
    ensures
        r == !is_fudi_whitespace(c),
{
    !is_whitespace(c)
}

/// Test for a valid character in an atom: neither whitespace nor the
/// semicolon terminator.
pub fn valid_atom_character(c: u8) -> (r: bool)
    ensures
        r == is_atom_byte(c),
{
    is_not_whitespace(c) && c != 59
}

/// The length of the maximal run of atom bytes at the front of `p`.
pub open spec fn atom_len(p: Seq<u8>) -> int
    decreases p.len(),
{
    if p.len() == 0 || !is_atom_byte(p[0]) {
        0
    } else {
        1 + atom_len(p.drop_first())
    }
}

/// `atom_len` marks the first byte that is not an atom byte: everything
/// before it is atom content, and the byte there (if any) is not.
pub proof fn lemma_atom_len(p: Seq<u8>)
    ensures
        0 <= atom_len(p) <= p.len(),
        forall|i: int| 0 <= i < atom_len(p) ==> is_atom_byte(#[trigger] p[i]),
        atom_len(p) < p.len() ==> !is_atom_byte(p[atom_len(p)]),
    decreases p.len(),
{
    if p.len() == 0 || !is_atom_byte(p[0]) {
    } else {
        lemma_atom_len(p.drop_first());
        assert forall|i: int| 0 <= i < atom_len(p) implies is_atom_byte(#[trigger] p[i]) by {
            if i > 0 {
                assert(p.drop_first()[i - 1] == p[i]);
            }
        }
        if atom_len(p) < p.len() {
            assert(p.drop_first()[atom_len(p) - 1] == p[atom_len(p)]);
        }
    }
}

/// A scan that saw `m` atom bytes and then the end of input or a non-atom
/// byte has found exactly the maximal run.
pub proof fn lemma_atom_len_is(p: Seq<u8>, m: int)
    requires
        0 <= m <= p.len(),
        forall|i: int| 0 <= i < m ==> is_atom_byte(#[trigger] p[i]),
        m < p.len() ==> !is_atom_byte(p[m]),
    ensures
        atom_len(p) == m,
    decreases p.len(),
{
    if m == 0 {
    } else {
        assert forall|i: int| 0 <= i < m - 1 implies is_atom_byte(#[trigger] p.drop_first()[i]) by {
            assert(p.drop_first()[i] == p[i + 1]);
        }
        if m - 1 < p.drop_first().len() {
            assert(p.drop_first()[m - 1] == p[m]);
        }
        lemma_atom_len_is(p.drop_first(), m - 1);
    }
}

/// Prepend already-tokenized atoms to the outcome of tokenizing the rest of
/// the input.
pub open spec fn tok_join(
    done: Seq<Seq<u8>>,
    rest: Option<(Seq<Seq<u8>>, Seq<u8>)>,
) -> Option<(Seq<Seq<u8>>, Seq<u8>)> {
    match rest {
        None => None,
        Some(p) => Some((done + p.0, p.1)),
    }
}

/// What tokenizing a payload yields: the atoms standing before the first
/// semicolon and the bytes after it, or nothing when no semicolon comes.
pub open spec fn tokens_of(p: Seq<u8>) -> Option<(Seq<Seq<u8>>, Seq<u8>)>
    decreases p.len(),
    via tokens_of_decreases
{
    if p.len() == 0 {
        None
    } else if p[0] == 59 {
        Some((Seq::empty(), p.drop_first()))
    } else if is_fudi_whitespace(p[0]) {
        tokens_of(p.drop_first())
    } else {
        tok_join(
            seq![p.subrange(0, atom_len(p))],
            tokens_of(p.subrange(atom_len(p), p.len() as int)),
        )
    }
}

#[via_fn]
proof fn tokens_of_decreases(p: Seq<u8>) {
    if p.len() > 0 && p[0] != 59 && !is_fudi_whitespace(p[0]) {
        lemma_atom_len(p);
        lemma_atom_len(p.drop_first());
    }
}

/// Nothing already done leaves the outcome as it is.
proof fn lemma_tok_join_empty(rest: Option<(Seq<Seq<u8>>, Seq<u8>)>)
    ensures
        tok_join(Seq::empty(), rest) == rest,
{
    match rest {
        None => {},
        Some(p) => {
            assert(Seq::<Seq<u8>>::empty() + p.0 =~= p.0);
        },
    }
}

/// Moving one atom from the pending side to the done side keeps the joined
/// outcome.
proof fn lemma_tok_join_push(done: Seq<Seq<u8>>, a: Seq<u8>, rest: Option<(Seq<Seq<u8>>, Seq<u8>)>)
    ensures
        tok_join(done, tok_join(seq![a], rest)) == tok_join(done.push(a), rest),
{
    match rest {
        None => {},
        Some(p) => {
            assert(done + (seq![a] + p.0) =~= done.push(a) + p.0);
        },
    }
}

/// Split `input` into its leading atom (the maximal run of atom bytes,
/// possibly empty) and the remaining bytes.
pub fn parse_atom(input: &[u8]) -> (r: (Vec<u8>, Vec<u8>))
    ensures
        r.0@ == input@.subrange(0, atom_len(input@)),
        r.1@ == input@.subrange(atom_len(input@), input@.len() as int),
{
    let n = input.len();
    let mut atom: Vec<u8> = Vec::new();
    let mut i: usize = 0;
    while i < n
        invariant_except_break
            0 <= i <= n,
            n == input@.len(),
            atom@ == input@.subrange(0, i as int),
            forall|t: int| 0 <= t < i ==> is_atom_byte(#[trigger] input@[t]),
        ensures
            0 <= i <= n,
            n == input@.len(),
            atom@ == input@.subrange(0, i as int),
            forall|t: int| 0 <= t < i ==> is_atom_byte(#[trigger] input@[t]),
            i < n ==> !is_atom_byte(input@[i as int]),
        decreases n - i,
    {
        let c = *slice_index_get(input, i);
        if !valid_atom_character(c) {
            break ;
        }
        atom.push(c);
        i = i + 1;
        assert(input@.subrange(0, i - 1).push(input@[i - 1]) =~= input@.subrange(0, i as int));
    }
    proof {
        lemma_atom_len_is(input@, i as int);
    }
    let mut rest: Vec<u8> = Vec::new();
    let mut j: usize = i;
    while j < n
        invariant
            i <= j <= n,
            n == input@.len(),
            rest@ == input@.subrange(i as int, j as int),
        decreases n - j,
    {
        rest.push(*slice_index_get(input, j));
        j = j + 1;
        assert(input@.subrange(i as int, j - 1).push(input@[j - 1]) =~= input@.subrange(
            i as int,
            j as int,
        ));
    }
    (atom, rest)
}

/// Split a raw payload into its atoms and the bytes trailing the first
/// semicolon. Whitespace runs collapse; scanning stops at the semicolon; a
/// payload without one fails with `MissingTerminator`.
pub fn tokenize(payload: &[u8]) -> (r: Result<(Vec<Vec<u8>>, Vec<u8>), DecodeError>)
    ensures
        match r {
            Ok(p) => tokens_of(payload@) == Some((views_of(p.0@), p.1@)),
            Err(e) => e == DecodeError::MissingTerminator && tokens_of(payload@) is None,
        },
{
    let n = payload.len();
    let mut atoms: Vec<Vec<u8>> = Vec::new();
    let mut i: usize = 0;
    proof {
        assert(views_of(atoms@) =~= Seq::<Seq<u8>>::empty());
        lemma_tok_join_empty(tokens_of(payload@));
        assert(payload@.subrange(0, n as int) =~= payload@);
    }
    while i < n
        invariant
            0 <= i <= n,
            n == payload@.len(),
            tokens_of(payload@) == tok_join(
                views_of(atoms@),
                tokens_of(payload@.subrange(i as int, n as int)),
            ),
        decreases n - i,
    {
        let ghost suf = payload@.subrange(i as int, n as int);
        let b = *slice_index_get(payload, i);
        proof {
            assert(suf[0] == payload@[i as int]);
        }
        if b == 59 {
            proof {
                assert(suf.drop_first() =~= payload@.subrange(i + 1, n as int));
                assert(views_of(atoms@) + Seq::<Seq<u8>>::empty() =~= views_of(atoms@));
            }
            let mut rest: Vec<u8> = Vec::new();
            let mut j: usize = i + 1;
            while j < n
                invariant
                    i + 1 <= j <= n,
                    n == payload@.len(),
                    rest@ == payload@.subrange(i + 1, j as int),
                decreases n - j,
            {
                rest.push(*slice_index_get(payload, j));
                j = j + 1;
                assert(payload@.subrange(i + 1, j - 1).push(payload@[j - 1]) =~= payload@.subrange(
                    i + 1,
                    j as int,
                ));
            }
            return Ok((atoms, rest));
        } else if is_whitespace(b) {
            proof {
                assert(suf.drop_first() =~= payload@.subrange(i + 1, n as int));
            }
            i = i + 1;
        } else {
            let start = i;
            let mut atom: Vec<u8> = Vec::new();
            while i < n
                invariant_except_break
                    start <= i <= n,
                    n == payload@.len(),
                    atom@ == payload@.subrange(start as int, i as int),
                    forall|t: int| start <= t < i ==> is_atom_byte(#[trigger] payload@[t]),
                ensures
                    start <= i <= n,
                    n == payload@.len(),
                    atom@ == payload@.subrange(start as int, i as int),
                    forall|t: int| start <= t < i ==> is_atom_byte(#[trigger] payload@[t]),
                    i < n ==> !is_atom_byte(payload@[i as int]),
                decreases n - i,
            {
                let c = *slice_index_get(payload, i);
                if !valid_atom_character(c) {
                    break ;
                }
                atom.push(c);
                i = i + 1;
                assert(payload@.subrange(start as int, i - 1).push(payload@[i - 1])
                    =~= payload@.subrange(start as int, i as int));
            }
            proof {
                assert forall|t: int| 0 <= t < i - start implies is_atom_byte(
                    #[trigger] suf[t],
                ) by {
                    assert(suf[t] == payload@[start + t]);
                }
                if i < n {
                    assert(suf[i - start] == payload@[i as int]);
                }
                lemma_atom_len_is(suf, i - start);
                assert(suf.subrange(0, i - start) =~= payload@.subrange(start as int, i as int));
                assert(suf.subrange(i - start, suf.len() as int) =~= payload@.subrange(
                    i as int,
                    n as int,
                ));
                lemma_tok_join_push(
                    views_of(atoms@),
                    atom@,
                    tokens_of(payload@.subrange(i as int, n as int)),
                );
            }
            let ghost old_atoms = atoms@;
            atoms.push(atom);
            proof {
                assert(views_of(atoms@) =~= views_of(old_atoms).push(
                    atoms@[old_atoms.len() as int]@,
                ));
            }
        }
    }
    proof {
        assert(payload@.subrange(n as int, n as int).len() == 0);
    }
    Err(DecodeError::MissingTerminator)
}

/// An ASCII decimal digit.
pub open spec fn is_digit_byte(b: u8) -> bool {
    48 <= b && b <= 57
}

/// Every byte of `s` is a decimal digit.
pub open spec fn all_digits(s: Seq<u8>) -> bool {
    forall|i: int| 0 <= i < s.len() ==> is_digit_byte(#[trigger] s[i])
}

/// `s` splits at position `k` into one-or-more digits, a dot, and
/// one-or-more fractional digits.
pub open spec fn is_dotted_at(s: Seq<u8>, k: int) -> bool {
    1 <= k && k + 2 <= s.len() && s[k] == 46 && all_digits(s.subrange(0, k)) && all_digits(
        s.subrange(k + 1, s.len() as int),
    )
}

/// An unsigned decimal numeral: one-or-more digits, optionally followed by
/// a dot and one-or-more fractional digits.
pub open spec fn is_unsigned_decimal(s: Seq<u8>) -> bool {
    (s.len() > 0 && all_digits(s)) || (exists|k: int| is_dotted_at(s, k))
}

/// A numeric atom: an unsigned decimal numeral with an optional leading
/// minus sign.
pub open spec fn is_number(s: Seq<u8>) -> bool {
    if s.len() > 0 && s[0] == 45 {
        is_unsigned_decimal(s.drop_first())
    } else {
        is_unsigned_decimal(s)
    }
}

/// Knowing where the leading digit run of `s` ends decides
/// `is_unsigned_decimal` outright: the run must be non-empty and either
/// cover `s` or be followed by a dot and a non-empty all-digit tail.
proof fn lemma_unsigned_decimal_shape(s: Seq<u8>, j: int)
    requires
        0 <= j <= s.len(),
        forall|t: int| 0 <= t < j ==> is_digit_byte(#[trigger] s[t]),
        j < s.len() ==> !is_digit_byte(s[j]),
    ensures
        is_unsigned_decimal(s) == (j > 0 && (j == s.len() || (s[j] == 46 && j + 2 <= s.len()
            && all_digits(s.subrange(j + 1, s.len() as int))))),
{
    if j == 0 {
        if is_unsigned_decimal(s) {
            if s.len() > 0 && all_digits(s) {
                assert(is_digit_byte(s[0]));
                assert(false);
            } else {
                let k: int = choose|q: int| is_dotted_at(s, q);
                assert(s.subrange(0, k)[0] == s[0]);
                assert(is_digit_byte(s.subrange(0, k)[0]));
                assert(false);
            }
        }
    } else if j == s.len() {
        assert(all_digits(s));
    } else if s[j] == 46 && j + 2 <= s.len() && all_digits(s.subrange(j + 1, s.len() as int)) {
        assert forall|t: int| 0 <= t < j implies is_digit_byte(#[trigger] s.subrange(0, j)[t]) by {
            assert(s.subrange(0, j)[t] == s[t]);
        }
        assert(is_dotted_at(s, j));
    } else {
        if is_unsigned_decimal(s) {
            if s.len() > 0 && all_digits(s) {
                assert(is_digit_byte(s[j]));
                assert(false);
            } else {
                let k: int = choose|q: int| is_dotted_at(s, q);
                if k < j {
                    assert(is_digit_byte(s[k]));
                    assert(false);
                } else if k == j {
                    assert(s[j] == 46 && j + 2 <= s.len() && all_digits(
                        s.subrange(j + 1, s.len() as int),
                    ));
                    assert(false);
                } else {
                    assert(s.subrange(0, k)[j] == s[j]);
                    assert(is_digit_byte(s.subrange(0, k)[j]));
                    assert(false);
                }
            }
        }
    }
}

/// Decide whether an atom reads as a signed decimal number: an optional
/// leading minus, one or more digits, and optionally a dot followed by one
/// or more fractional digits.
pub fn is_numeric_atom(a: &Vec<u8>) -> (r: bool)
    ensures
        r == is_number(a@),
{
    let n = a.len();
    let start: usize = if n > 0 && a[0] == 45 {
        1
    } else {
        0
    };
    let ghost body = a@.subrange(start as int, n as int);
    proof {
        if n > 0 && a@[0] == 45 {
            assert(body =~= a@.drop_first());
        } else {
            assert(body =~= a@);
        }
        assert(is_number(a@) == is_unsigned_decimal(body));
    }
    let mut j: usize = start;
    while j < n
        invariant_except_break
            start <= j <= n,
            n == a@.len(),
            forall|t: int| start <= t < j ==> is_digit_byte(#[trigger] a@[t]),
        ensures
            start <= j <= n,
            n == a@.len(),
            forall|t: int| start <= t < j ==> is_digit_byte(#[trigger] a@[t]),
            j < n ==> !is_digit_byte(a@[j as int]),
        decreases n - j,
    {
        let c = a[j];
        if c < 48 || c > 57 {
            break ;
        }
        j = j + 1;
    }
    let ghost jb: int = j - start;
    proof {
        assert forall|t: int| 0 <= t < jb implies is_digit_byte(#[trigger] body[t]) by {
            assert(body[t] == a@[start + t]);
        }
        if j < n {
            assert(body[jb] == a@[j as int]);
        }
        lemma_unsigned_decimal_shape(body, jb);
    }
    if j == n {
        return j > start;
    }
    if j == start {
        return false;
    }
    let c = a[j];
    if c != 46 {
        return false;
    }
    if n - j < 2 {
        return false;
    }
    let mut t: usize = j + 1;
    while t < n
        invariant_except_break
            j + 1 <= t <= n,
            n == a@.len(),
            forall|q: int| j + 1 <= q < t ==> is_digit_byte(#[trigger] a@[q]),
        ensures
            j + 1 <= t <= n,
            n == a@.len(),
            forall|q: int| j + 1 <= q < t ==> is_digit_byte(#[trigger] a@[q]),
            t < n ==> !is_digit_byte(a@[t as int]),
        decreases n - t,
    {
        let c2 = a[t];
        if c2 < 48 || c2 > 57 {
            break ;
        }
        t = t + 1;
    }
    proof {
        let frac = body.subrange(jb + 1, body.len() as int);
        if t == n {
            assert forall|q: int| 0 <= q < frac.len() implies is_digit_byte(
                #[trigger] frac[q],
            ) by {
                assert(frac[q] == a@[j + 1 + q]);
            }
        } else {
            assert(frac[t - (j + 1)] == a@[t as int]);
        }
    }
    t == n
}

/// What the ordered inference rules make of a run of atoms.
///
/// First match wins: no atoms is an error; a lone `bang` or `list` is a
/// bang; a lone numeral is a float; any other lone atom is a selector-only
/// generic message. With exactly two atoms, a `float` selector demands a
/// numeral, a `symbol` selector takes its payload verbatim, and a `list`
/// selector types its single element (numeral to float, anything else to
/// symbol). Every other run is a generic message: first atom the selector,
/// the rest its payload.
pub open spec fn classify_spec(ats: Seq<Seq<u8>>) -> Result<MessageModel, DecodeError> {
    if ats.len() == 0 {
        Err(DecodeError::EmptyMessage)
    } else if ats.len() == 1 {
        if ats[0] == bang_kw() || ats[0] == list_kw() {
            Ok(MessageModel::Bang)
        } else if is_number(ats[0]) {
            Ok(MessageModel::Float(ats[0]))
        } else {
            Ok(MessageModel::Generic(ats[0], Seq::empty()))
        }
    } else if ats.len() == 2 && ats[0] == float_kw() {
        if is_number(ats[1]) {
            Ok(MessageModel::Float(ats[1]))
        } else {
            Err(DecodeError::UnparseableNumber)
        }
    } else if ats.len() == 2 && ats[0] == symbol_kw() {
        Ok(MessageModel::Symbol(ats[1]))
    } else if ats.len() == 2 && ats[0] == list_kw() {
        if is_number(ats[1]) {
            Ok(MessageModel::Float(ats[1]))
        } else {
            Ok(MessageModel::Symbol(ats[1]))
        }
    } else {
        Ok(MessageModel::Generic(ats[0], ats.drop_first()))
    }
}

/// The model a decode result denotes: the message's model on success, the
/// error itself otherwise.
pub open spec fn decoded_model(r: Result<PdMessage, DecodeError>) -> Result<
    MessageModel,
    DecodeError,
> {
    match r {
        Ok(m) => Ok(m@),
        Err(e) => Err(e),
    }
}

fn is_bang_kw(a: &Vec<u8>) -> (r: bool)
    ensures
        r == (a@ == bang_kw()),
{
    if a.len() == 4 && a[0] == 98 && a[1] == 97 && a[2] == 110 && a[3] == 103 {
        proof {
            assert(a@ =~= bang_kw());
        }
        true
    } else {
        proof {
            if a@ == bang_kw() {
                assert(a@.len() == 4);
                assert(a@[0] == 98 && a@[1] == 97 && a@[2] == 110 && a@[3] == 103);
            }
        }
        false
    }
}

fn is_list_kw(a: &Vec<u8>) -> (r: bool)
    ensures
        r == (a@ == list_kw()),
{
    if a.len() == 4 && a[0] == 108 && a[1] == 105 && a[2] == 115 && a[3] == 116 {
        proof {
            assert(a@ =~= list_kw());
        }
        true
    } else {
        proof {
            if a@ == list_kw() {
                assert(a@.len() == 4);
                assert(a@[0] == 108 && a@[1] == 105 && a@[2] == 115 && a@[3] == 116);
            }
        }
        false
    }
}

fn is_float_kw(a: &Vec<u8>) -> (r: bool)
    ensures
        r == (a@ == float_kw()),
{
    if a.len() == 5 && a[0] == 102 && a[1] == 108 && a[2] == 111 && a[3] == 97 && a[4] == 116 {
        proof {
            assert(a@ =~= float_kw());
        }
        true
    } else {
        proof {
            if a@ == float_kw() {
                assert(a@.len() == 5);
                assert(a@[0] == 102 && a@[1] == 108 && a@[2] == 111 && a@[3] == 97 && a@[4]
                    == 116);
            }
        }
        false
    }
}

fn is_symbol_kw(a: &Vec<u8>) -> (r: bool)
    ensures
        r == (a@ == symbol_kw()),
{
    if a.len() == 6 && a[0] == 115 && a[1] == 121 && a[2] == 109 && a[3] == 98 && a[4] == 111
        && a[5] == 108 {
        proof {
            assert(a@ =~= symbol_kw());
        }
        true
    } else {
        proof {
            if a@ == symbol_kw() {
                assert(a@.len() == 6);
                assert(a@[0] == 115 && a@[1] == 121 && a@[2] == 109 && a@[3] == 98 && a@[4] == 111
                    && a@[5] == 108);
            }
        }
        false
    }
}

/// Build the typed message the ordered inference rules assign to a run of
/// atoms.
pub fn classify(atoms: Vec<Vec<u8>>) -> (r: Result<PdMessage, DecodeError>)
    ensures
        decoded_model(r) == classify_spec(views_of(atoms@)),
{
    let ghost ats = views_of(atoms@);
    let mut rest = atoms;
    if rest.len() == 0 {
        return Err(DecodeError::EmptyMessage);
    }
    if rest.len() == 1 {
        let a = rest.remove(0);
        proof {
            assert(a@ == ats[0]);
        }
        if is_bang_kw(&a) || is_list_kw(&a) {
            return Ok(PdMessage::Bang);
        }
        if is_numeric_atom(&a) {
            return Ok(PdMessage::Float(a));
        }
        let g = GenericMessage { selector: a, atoms: Vec::new() };
        proof {
            assert(views_of(g.atoms@) =~= Seq::<Seq<u8>>::empty());
        }
        return Ok(PdMessage::Generic(g));
    }
    if rest.len() == 2 {
        proof {
            assert(rest@[0]@ == ats[0]);
            assert(rest@[1]@ == ats[1]);
        }
        if is_float_kw(&rest[0]) {
            let a1 = rest.remove(1);
            if is_numeric_atom(&a1) {
                return Ok(PdMessage::Float(a1));
            }
            return Err(DecodeError::UnparseableNumber);
        }
        if is_symbol_kw(&rest[0]) {
            let a1 = rest.remove(1);
            return Ok(PdMessage::Symbol(a1));
        }
        if is_list_kw(&rest[0]) {
            let a1 = rest.remove(1);
            if is_numeric_atom(&a1) {
                return Ok(PdMessage::Float(a1));
            }
            return Ok(PdMessage::Symbol(a1));
        }
    }
    let ghost before = rest@;
    let selector = rest.remove(0);
    proof {
        assert(selector@ == ats[0]);
        assert forall|t: int| 0 <= t < rest@.len() implies views_of(rest@)[t]
            == ats.drop_first()[t] by {
            assert(rest@[t] == before.remove(0)[t]);
            assert(before.remove(0)[t] == before[t + 1]);
        }
        assert(views_of(rest@) =~= ats.drop_first());
    }
    let g = GenericMessage { selector, atoms: rest };
    Ok(PdMessage::Generic(g))
}

/// What decoding a whole payload yields: tokenize, then classify; the
/// bytes after the terminator are ignored.
pub open spec fn message_of(p: Seq<u8>) -> Result<MessageModel, DecodeError> {
    match tokens_of(p) {
        None => Err(DecodeError::MissingTerminator),
        Some(tr) => classify_spec(tr.0),
    }
}

/// Retrieve a typed message from a byte payload.
///
/// The payload must hold one terminated message; atoms with escaped
/// whitespace are not handled.
pub fn get_message(payload: &[u8]) -> (r: Result<PdMessage, DecodeError>)
    ensures
        decoded_model(r) == message_of(payload@),
{
    match tokenize(payload) {
        Err(e) => Err(e),
        Ok((atoms, _trailing)) => classify(atoms),
    }
}

} // verus!
