//! A verified codec for the FUDI wire protocol, the line-oriented text
//! format Pure Data uses to exchange typed messages over a datagram
//! transport.
//!
//! A message on the wire is a run of whitespace-separated atoms closed by a
//! semicolon. The format is implicit-typed: the same textual shape can mean
//! different message kinds depending on the atom count, the leading keyword,
//! and whether an atom reads as a number. The codec here is the pure core:
//! the tokenizer that splits a payload into atoms, the classifier that infers
//! the message kind, and the serializer that renders a message back into
//! canonical wire bytes. Socket handling stays outside the library; callers
//! hand in the raw bytes of one datagram and get a typed message back.
//!
//! Every textual field of a message is kept as its wire bytes. In particular
//! a float message carries the decimal text of its number: the protocol is
//! defined on bytes, and the decimal text is what travels on the wire.
#![allow(unused_imports)]
use vstd::prelude::*;

pub mod parser;
pub mod props;

verus! {

/// The most generic message: a selector atom followed by any run of
/// payload atoms.
#[derive(Debug)]
pub struct GenericMessage {
    /// The first atom, used to dispatch the message. Never empty on
    /// messages produced by the classifier.
    pub selector: Vec<u8>,
    /// The remaining atoms in source order; may be empty.
    pub atoms: Vec<Vec<u8>>,
}

/// A typed FUDI message.
///
/// `Float` carries the decimal text of its number (for example `b"-5.7"`),
/// which is exactly what stands on the wire after the `float` keyword.
#[derive(Debug)]
pub enum PdMessage {
    Float(Vec<u8>),
    Symbol(Vec<u8>),
    Bang,
    Generic(GenericMessage),
}

/// The mathematical model of a message: each textual field as a byte
/// sequence.
pub enum MessageModel {
    Float(Seq<u8>),
    Symbol(Seq<u8>),
    Bang,
    Generic(Seq<u8>, Seq<Seq<u8>>),
}

/// The byte sequences held by a run of atoms.
pub open spec fn views_of(s: Seq<Vec<u8>>) -> Seq<Seq<u8>> {
    Seq::new(s.len(), |i: int| s[i]@)
}

impl View for PdMessage {
    type V = MessageModel;

    open spec fn view(&self) -> MessageModel {
        match self {
            PdMessage::Float(t) => MessageModel::Float(t@),
            PdMessage::Symbol(s) => MessageModel::Symbol(s@),
            PdMessage::Bang => MessageModel::Bang,
            PdMessage::Generic(g) => MessageModel::Generic(g.selector@, views_of(g.atoms@)),
        }
    }
}

/// Why a payload failed to decode into a message.
#[derive(Clone, Copy, Debug, PartialEq, Eq, Structural)]
pub enum DecodeError {
    /// The tokenizer ran out of input without finding a semicolon.
    MissingTerminator,
    /// The terminator came before any atom, so there is no selector to
    /// dispatch on.
    EmptyMessage,
    /// A `float` selector promised a numeric payload that does not parse.
    UnparseableNumber,
}

/// The bytes of the keyword `bang`.
pub open spec fn bang_kw() -> Seq<u8> {
    seq![98u8, 97u8, 110u8, 103u8]
}

/// The bytes of the keyword `list`.
pub open spec fn list_kw() -> Seq<u8> {
    seq![108u8, 105u8, 115u8, 116u8]
}

/// The bytes of the keyword `float`.
pub open spec fn float_kw() -> Seq<u8> {
    seq![102u8, 108u8, 111u8, 97u8, 116u8]
}

/// The bytes of the keyword `symbol`.
pub open spec fn symbol_kw() -> Seq<u8> {
    seq![115u8, 121u8, 109u8, 98u8, 111u8, 108u8]
}

/// The canonical end of a message: the semicolon terminator and the
/// conventional trailing newline.
pub open spec fn terminator() -> Seq<u8> {
    seq![59u8, 10u8]
}

/// Payload atoms as they stand in a generic message's wire text: each atom
/// preceded by a single space.
pub open spec fn spaced_atoms(atoms: Seq<Seq<u8>>) -> Seq<u8>
    decreases atoms.len(),
{
    if atoms.len() == 0 {
        Seq::empty()
    } else {
        seq![32u8] + atoms[0] + spaced_atoms(atoms.drop_first())
    }
}

/// The canonical wire text of a message.
pub open spec fn text_of(m: MessageModel) -> Seq<u8> {
    match m {
        MessageModel::Float(t) => float_kw() + seq![32u8] + t + terminator(),
        MessageModel::Symbol(s) => symbol_kw() + seq![32u8] + s + terminator(),
        MessageModel::Bang => bang_kw() + terminator(),
        MessageModel::Generic(sel, atoms) => sel + spaced_atoms(atoms) + terminator(),
    }
}

/// Appending one atom to the payload appends one space and the atom's bytes
/// to the rendered run.
proof fn lemma_spaced_atoms_push(atoms: Seq<Seq<u8>>, a: Seq<u8>)
    ensures
        spaced_atoms(atoms.push(a)) == spaced_atoms(atoms) + seq![32u8] + a,
    decreases atoms.len(),
{
    if atoms.len() == 0 {
        assert(atoms.push(a)[0] == a);
        assert(atoms.push(a).drop_first() =~= Seq::<Seq<u8>>::empty());
        assert(spaced_atoms(atoms.push(a)) == seq![32u8] + a + spaced_atoms(
            Seq::<Seq<u8>>::empty(),
        ));
        assert(spaced_atoms(atoms.push(a)) =~= spaced_atoms(atoms) + seq![32u8] + a);
    } else {
        assert(atoms.push(a).drop_first() =~= atoms.drop_first().push(a));
        lemma_spaced_atoms_push(atoms.drop_first(), a);
        assert(spaced_atoms(atoms.push(a)) =~= spaced_atoms(atoms) + seq![32u8] + a);
    }
}

/// Append every byte of `piece` to `out`.
fn push_all(out: &mut Vec<u8>, piece: &Vec<u8>)
    ensures
        final(out)@ == old(out)@ + piece@,
{
    let ghost base = out@;
    let mut i: usize = 0;
    while i < piece.len()
        invariant
            0 <= i <= piece@.len(),
            out@ == base + piece@.take(i as int),
        decreases piece@.len() - i,
    {
        out.push(piece[i]);
        i = i + 1;
        assert(base + piece@.take(i - 1) + seq![piece@[i - 1]] =~= base + piece@.take(
            i as int,
        ));
    }
    assert(base + piece@.take(piece@.len() as int) =~= base + piece@);
}

impl PdMessage {
    /// Render the message into its canonical wire bytes, semicolon and
    /// trailing newline included.
    pub fn to_text(&self) -> (r: Vec<u8>)
        ensures
            r@ == text_of(self@),
    {
        let mut out: Vec<u8> = Vec::new();
        match self {
            PdMessage::Float(t) => {
                out.push(102);
                out.push(108);
                out.push(111);
                out.push(97);
                out.push(116);
                out.push(32);
                push_all(&mut out, t);
                assert(out@ =~= float_kw() + seq![32u8] + t@);
            },
            PdMessage::Symbol(s) => {
                out.push(115);
                out.push(121);
                out.push(109);
                out.push(98);
                out.push(111);
                out.push(108);
                out.push(32);
                push_all(&mut out, s);
                assert(out@ =~= symbol_kw() + seq![32u8] + s@);
            },
            PdMessage::Bang => {
                out.push(98);
                out.push(97);
                out.push(110);
                out.push(103);
                assert(out@ =~= bang_kw());
            },
            PdMessage::Generic(g) => {
                push_all(&mut out, &g.selector);
                let ghost atom_views = views_of(g.atoms@);
                let mut i: usize = 0;
                while i < g.atoms.len()
                    invariant
                        0 <= i <= g.atoms@.len(),
                        atom_views == views_of(g.atoms@),
                        atom_views.len() == g.atoms@.len(),
                        out@ == g.selector@ + spaced_atoms(atom_views.take(i as int)),
                    decreases g.atoms@.len() - i,
                {
                    out.push(32);
                    push_all(&mut out, &g.atoms[i]);
                    proof {
                        lemma_spaced_atoms_push(atom_views.take(i as int), atom_views[i as int]);
                        assert(atom_views.take(i as int).push(atom_views[i as int]) =~= atom_views
                            .take(i + 1));
                        assert(g.atoms@[i as int]@ == atom_views[i as int]);
                        assert(out@ =~= g.selector@ + spaced_atoms(atom_views.take(i + 1)));
                    }
                    i = i + 1;
                }
                assert(atom_views.take(atom_views.len() as int) =~= atom_views);
            },
        }
        out.push(59);
        out.push(10);
        assert(out@ =~= text_of(self@));
        out
    }
}

} // verus!
