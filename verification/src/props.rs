//! Laws the codec obeys, proved over the spec-level model.
#![allow(unused_imports)]
use vstd::prelude::*;

use crate::bang_kw;
use crate::float_kw;
use crate::list_kw;
use crate::spaced_atoms;
use crate::symbol_kw;
use crate::terminator;
use crate::text_of;
use crate::DecodeError;
use crate::MessageModel;
use crate::parser::all_digits;
use crate::parser::classify_spec;
use crate::parser::is_atom_byte;
use crate::parser::is_digit_byte;
use crate::parser::is_dotted_at;
use crate::parser::is_fudi_whitespace;
use crate::parser::is_number;
use crate::parser::is_unsigned_decimal;
use crate::parser::lemma_atom_len_is;
use crate::parser::message_of;
use crate::parser::tokens_of;

verus! {

/// A byte run that can travel as one atom: non-empty, and made of atom
/// bytes only.
pub open spec fn atom_wf(a: Seq<u8>) -> bool {
    a.len() > 0 && forall|i: int| 0 <= i < a.len() ==> is_atom_byte(#[trigger] a[i])
}

/// The inputs on which serializing and decoding again gives the message
/// back.
///
/// A float must carry numeric text and a symbol one well-formed atom. A
/// generic message needs a well-formed selector and well-formed atoms; a
/// selector-only one must not read as a keyword the classifier folds away
/// (`bang`, `list`) or as a number, and a one-atom one must not carry a
/// selector (`float`, `symbol`, `list`) that types its payload. With two
/// or more payload atoms every selector round-trips, the keywords
/// included.
pub open spec fn round_trippable(m: MessageModel) -> bool {
    match m {
        MessageModel::Float(t) => is_number(t),
        MessageModel::Symbol(s) => atom_wf(s),
        MessageModel::Bang => true,
        MessageModel::Generic(sel, ats) => atom_wf(sel) && (forall|i: int|
            0 <= i < ats.len() ==> atom_wf(#[trigger] ats[i])) && (ats.len() == 0 ==> sel
            != bang_kw() && sel != list_kw() && !is_number(sel)) && (ats.len() == 1 ==> sel
            != float_kw() && sel != symbol_kw() && sel != list_kw()),
    }
}

/// The atoms a message's wire text carries, in order.
pub open spec fn wire_atoms(m: MessageModel) -> Seq<Seq<u8>> {
    match m {
        MessageModel::Float(t) => seq![float_kw(), t],
        MessageModel::Symbol(s) => seq![symbol_kw(), s],
        MessageModel::Bang => seq![bang_kw()],
        MessageModel::Generic(sel, ats) => seq![sel] + ats,
    }
}

/// The wire text of a non-empty run of atoms: the first atom, each further
/// atom behind one space, and the terminator.
pub open spec fn wire_text(ats: Seq<Seq<u8>>) -> Seq<u8>
    recommends
        ats.len() > 0,
{
    ats[0] + spaced_atoms(ats.drop_first()) + terminator()
}

/// Numeric text is one well-formed atom: a minus, digits, and a dot are
/// all atom bytes.
proof fn lemma_number_is_atom(t: Seq<u8>)
    requires
        is_number(t),
    ensures
        atom_wf(t),
{
    let off: int = if t.len() > 0 && t[0] == 45 {
        1
    } else {
        0
    };
    let body = t.subrange(off, t.len() as int);
    if off == 1 {
        assert(body =~= t.drop_first());
    } else {
        assert(body =~= t);
    }
    assert(is_unsigned_decimal(body));
    assert(body.len() > 0) by {
        if !(body.len() > 0 && all_digits(body)) {
            let k: int = choose|q: int| is_dotted_at(body, q);
            assert(k + 2 <= body.len());
        }
    }
    assert forall|i: int| 0 <= i < t.len() implies is_atom_byte(#[trigger] t[i]) by {
        if off == 1 && i == 0 {
            assert(t[i] == 45);
        } else {
            let ib = i - off;
            assert(body[ib] == t[i]);
            if body.len() > 0 && all_digits(body) {
                assert(is_digit_byte(body[ib]));
            } else {
                let k: int = choose|q: int| is_dotted_at(body, q);
                if ib < k {
                    assert(body.subrange(0, k)[ib] == body[ib]);
                    assert(is_digit_byte(body.subrange(0, k)[ib]));
                } else if ib == k {
                    assert(body[ib] == 46);
                } else {
                    assert(body.subrange(k + 1, body.len() as int)[ib - k - 1] == body[ib]);
                    assert(is_digit_byte(body.subrange(k + 1, body.len() as int)[ib - k - 1]));
                }
            }
        }
    }
}

/// The four keywords are themselves well-formed atoms.
proof fn lemma_keywords_wf()
    ensures
        atom_wf(bang_kw()),
        atom_wf(list_kw()),
        atom_wf(float_kw()),
        atom_wf(symbol_kw()),
{
    assert forall|i: int| 0 <= i < bang_kw().len() implies is_atom_byte(
        #[trigger] bang_kw()[i],
    ) by {
        if i == 0 {
        } else if i == 1 {
        } else if i == 2 {
        } else {
            assert(i == 3);
        }
    }
    assert forall|i: int| 0 <= i < list_kw().len() implies is_atom_byte(
        #[trigger] list_kw()[i],
    ) by {
        if i == 0 {
        } else if i == 1 {
        } else if i == 2 {
        } else {
            assert(i == 3);
        }
    }
    assert forall|i: int| 0 <= i < float_kw().len() implies is_atom_byte(
        #[trigger] float_kw()[i],
    ) by {
        if i == 0 {
        } else if i == 1 {
        } else if i == 2 {
        } else if i == 3 {
        } else {
            assert(i == 4);
        }
    }
    assert forall|i: int| 0 <= i < symbol_kw().len() implies is_atom_byte(
        #[trigger] symbol_kw()[i],
    ) by {
        if i == 0 {
        } else if i == 1 {
        } else if i == 2 {
        } else if i == 3 {
        } else if i == 4 {
        } else {
            assert(i == 5);
        }
    }
}

/// A message's canonical text is the wire text of its atoms.
proof fn lemma_text_is_wire_text(m: MessageModel)
    ensures
        text_of(m) == wire_text(wire_atoms(m)),
{
    match m {
        MessageModel::Float(t) => {
            assert(wire_atoms(m).drop_first() =~= seq![t]);
            assert(seq![t].drop_first() =~= Seq::<Seq<u8>>::empty());
            assert(spaced_atoms(Seq::<Seq<u8>>::empty()) =~= Seq::<u8>::empty());
            assert(spaced_atoms(seq![t]) =~= seq![32u8] + t);
            assert(text_of(m) =~= wire_text(wire_atoms(m)));
        },
        MessageModel::Symbol(s) => {
            assert(wire_atoms(m).drop_first() =~= seq![s]);
            assert(seq![s].drop_first() =~= Seq::<Seq<u8>>::empty());
            assert(spaced_atoms(Seq::<Seq<u8>>::empty()) =~= Seq::<u8>::empty());
            assert(spaced_atoms(seq![s]) =~= seq![32u8] + s);
            assert(text_of(m) =~= wire_text(wire_atoms(m)));
        },
        MessageModel::Bang => {
            assert(wire_atoms(m).drop_first() =~= Seq::<Seq<u8>>::empty());
            assert(text_of(m) =~= wire_text(wire_atoms(m)));
        },
        MessageModel::Generic(sel, ats) => {
            assert(wire_atoms(m)[0] == sel);
            assert(wire_atoms(m).drop_first() =~= ats);
            assert(text_of(m) =~= wire_text(wire_atoms(m)));
        },
    }
}

/// Tokenizing the wire text of well-formed atoms gives those atoms back,
/// with the conventional newline as the only trailing byte.
proof fn lemma_tokens_of_wire(ats: Seq<Seq<u8>>)
    requires
        ats.len() > 0,
        forall|i: int| 0 <= i < ats.len() ==> atom_wf(#[trigger] ats[i]),
    ensures
        tokens_of(wire_text(ats)) == Some((ats, seq![10u8])),
    decreases ats.len(),
{
    let w = wire_text(ats);
    let first = ats[0];
    let tail_atoms = ats.drop_first();
    let ln = first.len() as int;
    assert(w[0] == first[0]);
    assert(is_atom_byte(w[0]));
    assert forall|t: int| 0 <= t < ln implies is_atom_byte(#[trigger] w[t]) by {
        assert(w[t] == first[t]);
    }
    if tail_atoms.len() == 0 {
        assert(spaced_atoms(tail_atoms) =~= Seq::<u8>::empty());
        assert(w =~= first + terminator());
        assert(w[ln] == 59);
        lemma_atom_len_is(w, ln);
        assert(w.subrange(0, ln) =~= first);
        let rest = w.subrange(ln, w.len() as int);
        assert(rest =~= terminator());
        assert(rest[0] == 59);
        assert(tokens_of(rest) == Some((Seq::<Seq<u8>>::empty(), rest.drop_first())));
        assert(rest.drop_first() =~= seq![10u8]);
        assert(seq![first] + Seq::<Seq<u8>>::empty() =~= ats);
    } else {
        assert(spaced_atoms(tail_atoms)[0] == 32);
        assert(w[ln] == spaced_atoms(tail_atoms)[0]);
        lemma_atom_len_is(w, ln);
        assert(w.subrange(0, ln) =~= first);
        let rest = w.subrange(ln, w.len() as int);
        assert(rest =~= spaced_atoms(tail_atoms) + terminator());
        assert(rest[0] == 32);
        assert(is_fudi_whitespace(rest[0]));
        assert(rest.drop_first() =~= wire_text(tail_atoms)) by {
            assert(spaced_atoms(tail_atoms) == seq![32u8] + tail_atoms[0] + spaced_atoms(
                tail_atoms.drop_first(),
            ));
        }
        assert forall|i: int| 0 <= i < tail_atoms.len() implies atom_wf(
            #[trigger] tail_atoms[i],
        ) by {
            assert(tail_atoms[i] == ats[i + 1]);
        }
        lemma_tokens_of_wire(tail_atoms);
        assert(tokens_of(rest) == Some((tail_atoms, seq![10u8])));
        assert(seq![first] + tail_atoms =~= ats);
    }
}

/// Classifying the atoms a round-trippable message puts on the wire gives
/// the message back.
proof fn lemma_classify_wire(m: MessageModel)
    requires
        round_trippable(m),
    ensures
        classify_spec(wire_atoms(m)) == Ok::<MessageModel, DecodeError>(m),
{
    assert(float_kw().len() == 5 && symbol_kw().len() == 6 && list_kw().len() == 4);
    match m {
        MessageModel::Float(t) => {
            assert(wire_atoms(m)[0] == float_kw());
            assert(wire_atoms(m)[1] == t);
        },
        MessageModel::Symbol(s) => {
            assert(wire_atoms(m)[0] == symbol_kw());
            assert(wire_atoms(m)[1] == s);
            assert(symbol_kw() != float_kw());
        },
        MessageModel::Bang => {
            assert(wire_atoms(m)[0] == bang_kw());
        },
        MessageModel::Generic(sel, ats) => {
            let w = wire_atoms(m);
            assert(w[0] == sel);
            if ats.len() == 0 {
                assert(w.len() == 1);
                assert(ats =~= Seq::<Seq<u8>>::empty());
            } else {
                assert(w.drop_first() =~= ats);
                if ats.len() == 1 {
                    assert(w.len() == 2);
                } else {
                    assert(w.len() >= 3);
                }
            }
        },
    }
}

/// Round trip: serializing any round-trippable message and decoding the
/// bytes again yields exactly the original message.
pub proof fn lemma_round_trip(m: MessageModel)
    requires
        round_trippable(m),
    ensures
        message_of(text_of(m)) == Ok::<MessageModel, DecodeError>(m),
{
    lemma_keywords_wf();
    match m {
        MessageModel::Float(t) => {
            lemma_number_is_atom(t);
        },
        MessageModel::Symbol(_) => {},
        MessageModel::Bang => {},
        MessageModel::Generic(_, _) => {},
    }
    assert forall|i: int| 0 <= i < wire_atoms(m).len() implies atom_wf(
        #[trigger] wire_atoms(m)[i],
    ) by {
        match m {
            MessageModel::Float(_) => {},
            MessageModel::Symbol(_) => {},
            MessageModel::Bang => {},
            MessageModel::Generic(_, ats) => {
                if i > 0 {
                    assert(wire_atoms(m)[i] == ats[i - 1]);
                }
            },
        }
    }
    lemma_text_is_wire_text(m);
    lemma_tokens_of_wire(wire_atoms(m));
    lemma_classify_wire(m);
}

/// Determinism: classification is a pure function of the atom sequence;
/// equal runs of atoms always classify to the same message.
pub proof fn lemma_classify_deterministic(a: Seq<Seq<u8>>, b: Seq<Seq<u8>>)
    requires
        a == b,
    ensures
        classify_spec(a) == classify_spec(b),
{
}

} // verus!
